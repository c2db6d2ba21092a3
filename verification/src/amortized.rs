//! The amortized route to the fixed-root eliminant: the residual pair is
//! built once over F_p[X][Y], then specialised at every `X = x` of the grid.
use vstd::arithmetic::div_mod::*;
use vstd::arithmetic::mul::*;
use vstd::prelude::*;

use crate::bipoly::{
    bi_add_spec, bi_coef, bi_conv, bi_deg_x, bi_mul_spec, bi_scalar_spec, bi_sub_spec, bi_trim, bi_view, bi_within,
    lemma_bi_mul_within, lemma_bi_trim_facts, lemma_bi_within_weaken, BiPoly,
};
use crate::cico::{lemma_add_len, lemma_scalar_len, polys};
use crate::poly as pl;
use crate::poly_spec::reduced;
use crate::Poseidon1;
use vstd::arithmetic::power::*;
use crate::field::modulus;
use crate::poly_eval::{lemma_peval_add, lemma_peval_mul, lemma_peval_scalar, lemma_peval_sub};
use crate::poly_ring::eqm;
use crate::poly_spec::{
    add_coefs, add_spec, coef, conv, conv_upto, from_fn, lemma_add_spec_coef, lemma_conv_ext,
    lemma_conv_high_zero, lemma_conv_upto_stable, lemma_mul_spec_coef, lemma_scalar_spec_coef, lemma_trim,
    lemma_trimmed_eq, max_len, mul_spec, peval, scalar_coefs, scalar_spec, sub_coefs, sub_spec, trim_spec,
    trimmed, conv_coefs,
};
use crate::cico::poly_perm;
use crate::rootgrid::grid_xs;
use crate::rootvar::{
    canonical_line_residuals, concrete_cofactor, elim_spec, expected_degree, fixed_cofactor, fixed_root,
    lemma_instance_ok, lemma_pow3_fits, passes_canonical, residual_polys_at_x, sample_grid, scout_instance,
    scout_rounds, scout_seed, scout_seed_spec,
    comp_poly_spec, fp2s_ok, lemma_eqm_mod, lemma_eqm_mul2, line_residuals, line_spec, neg_spec, rf_state_spec, rmul_spec,
};
use crate::zerotest::{flat_spec, fp2_ok, fp_mul, is_zero_residual, residual_spec, root_first_spec, Fp2, ZT_D};
use crate::poly_spec::{canon, degree, res_spec};
use crate::{canonical_mds, canonical_rcs};
use crate::poly_divides::{lemma_eqm_add, lemma_eqm_sub};
use crate::P;

verus! {

// ---------------------------------------------------------------------------
// Specialising X
// ---------------------------------------------------------------------------

/// The Y-coefficients of `f` at `X = x`.
pub open spec fn bi_ev(f: Seq<Seq<u32>>, x: int) -> Seq<u32> {
    Seq::new(f.len(), |i: int| (peval(f[i], x) % modulus()) as u32)
}

/// `f(x, Y)` as a polynomial in `Y`.
pub open spec fn bi_at_x(f: Seq<Seq<u32>>, x: int) -> Seq<u32> {
    trim_spec(bi_ev(f, x))
}

/// Coefficient `i` of `f(x, Y)`.
pub proof fn lemma_bi_at_x_coef(f: Seq<Seq<u32>>, x: int, i: int)
    ensures
        coef(bi_at_x(f, x), i) == peval(bi_coef(f, i), x) % modulus(),
        trimmed(bi_at_x(f, x)),
{
    lemma_trim(bi_ev(f, x));
    if !(0 <= i < f.len()) {
        assert(peval(Seq::<u32>::empty(), x) == 0);
    }
}

/// Dropping empty Y-coefficients does not change the specialisation.
proof fn lemma_bi_trim_eval(g: Seq<Seq<u32>>, x: int, i: int)
    ensures
        peval(bi_coef(bi_trim(g), i), x) == peval(bi_coef(g, i), x),
{
    lemma_bi_trim_facts(g);
    if 0 <= i < g.len() && i >= bi_trim(g).len() {
        assert(g[i].len() == 0);
        assert(g[i] =~= Seq::<u32>::empty());
    }
    if 0 <= i < bi_trim(g).len() {
        assert(bi_trim(g)[i] == g[i]);
    }
}

proof fn lemma_add_trimmed(a: Seq<u32>, b: Seq<u32>)
    ensures
        trimmed(add_spec(a, b)),
        trimmed(sub_spec(a, b)),
{
    lemma_trim(from_fn(max_len(a, b), add_coefs(a, b)));
    lemma_trim(from_fn(max_len(a, b), sub_coefs(a, b)));
}

proof fn lemma_scalar_trimmed(a: Seq<u32>, c: int)
    ensures
        trimmed(scalar_spec(a, c)),
{
    lemma_trim(from_fn(a.len(), scalar_coefs(a, c)));
}

proof fn lemma_mul_trimmed(a: Seq<u32>, b: Seq<u32>)
    ensures
        trimmed(mul_spec(a, b)),
{
    if a.len() > 0 && b.len() > 0 {
        lemma_trim(from_fn((a.len() + b.len() - 1) as nat, conv_coefs(a, b)));
    }
}

/// Specialising commutes with addition and subtraction.
pub proof fn lemma_bi_add_at_x(a: Seq<Seq<u32>>, b: Seq<Seq<u32>>, x: int)
    ensures
        bi_at_x(bi_add_spec(a, b), x) == add_spec(bi_at_x(a, x), bi_at_x(b, x)),
        bi_at_x(bi_sub_spec(a, b), x) == sub_spec(bi_at_x(a, x), bi_at_x(b, x)),
{
    let p = modulus();
    let n = if a.len() >= b.len() { a.len() } else { b.len() };
    let ga = Seq::new(n, |i: int| add_spec(bi_coef(a, i), bi_coef(b, i)));
    let gs = Seq::new(n, |i: int| sub_spec(bi_coef(a, i), bi_coef(b, i)));
    let ea = bi_at_x(a, x);
    let eb = bi_at_x(b, x);
    assert forall|i: int| #[trigger] coef(bi_at_x(bi_add_spec(a, b), x), i) == coef(add_spec(ea, eb), i) by {
        lemma_bi_at_x_coef(bi_add_spec(a, b), x, i);
        lemma_bi_trim_eval(ga, x, i);
        lemma_bi_at_x_coef(a, x, i);
        lemma_bi_at_x_coef(b, x, i);
        lemma_add_spec_coef(ea, eb, i);
        let va = peval(bi_coef(a, i), x);
        let vb = peval(bi_coef(b, i), x);
        if 0 <= i < n {
            lemma_peval_add(bi_coef(a, i), bi_coef(b, i), x);
        } else {
            assert(peval(Seq::<u32>::empty(), x) == 0);
        }
        lemma_eqm_mod(va);
        lemma_eqm_mod(vb);
        lemma_eqm_add(va % p, va, vb % p, vb);
    }
    assert forall|i: int| #[trigger] coef(bi_at_x(bi_sub_spec(a, b), x), i) == coef(sub_spec(ea, eb), i) by {
        lemma_bi_at_x_coef(bi_sub_spec(a, b), x, i);
        lemma_bi_trim_eval(gs, x, i);
        lemma_bi_at_x_coef(a, x, i);
        lemma_bi_at_x_coef(b, x, i);
        lemma_add_spec_coef(ea, eb, i);
        let va = peval(bi_coef(a, i), x);
        let vb = peval(bi_coef(b, i), x);
        if 0 <= i < n {
            lemma_peval_sub(bi_coef(a, i), bi_coef(b, i), x);
        } else {
            assert(peval(Seq::<u32>::empty(), x) == 0);
        }
        lemma_eqm_mod(va);
        lemma_eqm_mod(vb);
        lemma_eqm_sub(va % p, va, vb % p, vb);
    }
    lemma_bi_at_x_coef(bi_add_spec(a, b), x, 0);
    lemma_bi_at_x_coef(bi_sub_spec(a, b), x, 0);
    lemma_add_trimmed(ea, eb);
    lemma_trimmed_eq(bi_at_x(bi_add_spec(a, b), x), add_spec(ea, eb));
    lemma_trimmed_eq(bi_at_x(bi_sub_spec(a, b), x), sub_spec(ea, eb));
}

/// Specialising commutes with scaling.
pub proof fn lemma_bi_scalar_at_x(a: Seq<Seq<u32>>, c: u32, x: int)
    ensures
        bi_at_x(bi_scalar_spec(a, c), x) == scalar_spec(bi_at_x(a, x), c as int),
{
    let p = modulus();
    let ea = bi_at_x(a, x);
    let cm = (c % P) as int;
    let g = Seq::new(a.len(), |i: int| scalar_spec(a[i], cm));
    assert forall|i: int| #[trigger] coef(bi_at_x(bi_scalar_spec(a, c), x), i) == coef(scalar_spec(ea, c as int), i) by {
        lemma_bi_at_x_coef(bi_scalar_spec(a, c), x, i);
        lemma_bi_at_x_coef(a, x, i);
        lemma_scalar_spec_coef(ea, c as int, i);
        let va = peval(bi_coef(a, i), x);
        lemma_eqm_mod(va);
        lemma_eqm_mod(c as int);
        lemma_eqm_mul2(va % p, c as int, va, cm);
        if c % P == 0 {
            assert(peval(Seq::<u32>::empty(), x) == 0);
            lemma_mul_basics(va);
        } else {
            lemma_bi_trim_eval(g, x, i);
            if 0 <= i < a.len() {
                lemma_peval_scalar(a[i], cm, x);
                lemma_mul_is_commutative(cm, va);
            } else {
                assert(peval(Seq::<u32>::empty(), x) == 0);
                lemma_mul_basics(cm);
            }
        }
    }
    lemma_bi_at_x_coef(bi_scalar_spec(a, c), x, 0);
    lemma_scalar_trimmed(ea, c as int);
    lemma_trimmed_eq(bi_at_x(bi_scalar_spec(a, c), x), scalar_spec(ea, c as int));
}

/// Trimming the Y-coefficients does not change the specialisation.
proof fn lemma_bi_at_x_trim(a: Seq<Seq<u32>>, x: int)
    ensures
        bi_at_x(bi_trim(a), x) == bi_at_x(a, x),
{
    assert forall|i: int| #[trigger] coef(bi_at_x(bi_trim(a), x), i) == coef(bi_at_x(a, x), i) by {
        lemma_bi_at_x_coef(bi_trim(a), x, i);
        lemma_bi_at_x_coef(a, x, i);
        lemma_bi_trim_eval(a, x, i);
    }
    lemma_bi_at_x_coef(bi_trim(a), x, 0);
    lemma_bi_at_x_coef(a, x, 0);
    lemma_trimmed_eq(bi_at_x(bi_trim(a), x), bi_at_x(a, x));
}

proof fn lemma_bi_conv_eval(a: Seq<Seq<u32>>, b: Seq<Seq<u32>>, k: int, n: int, x: int)
    requires
        0 <= n <= a.len(),
    ensures
        eqm(peval(bi_conv(a, b, k, n), x), conv_upto(bi_at_x(a, x), bi_at_x(b, x), k, n)),
    decreases n,
{
    let p = modulus();
    if n == 0 {
        assert(peval(Seq::<u32>::empty(), x) == 0);
    } else {
        lemma_bi_conv_eval(a, b, k, n - 1, x);
        let prev = bi_conv(a, b, k, n - 1);
        let u = a[n - 1];
        let v = bi_coef(b, k - (n - 1));
        lemma_peval_add(prev, mul_spec(u, v), x);
        lemma_peval_mul(u, v, x);
        lemma_bi_at_x_coef(a, x, n - 1);
        lemma_bi_at_x_coef(b, x, k - (n - 1));
        assert(bi_coef(a, n - 1) == u);
        let eu = coef(bi_at_x(a, x), n - 1);
        let ev = coef(bi_at_x(b, x), k - (n - 1));
        lemma_eqm_mod(peval(u, x));
        lemma_eqm_mod(peval(v, x));
        lemma_eqm_mul2(peval(u, x), peval(v, x), eu, ev);
        lemma_eqm_add(peval(prev, x), conv_upto(bi_at_x(a, x), bi_at_x(b, x), k, n - 1), peval(mul_spec(u, v), x), eu * ev);
    }
}

/// Specialising commutes with multiplication.
pub proof fn lemma_bi_mul_at_x(a: Seq<Seq<u32>>, b: Seq<Seq<u32>>, x: int)
    ensures
        bi_at_x(bi_mul_spec(a, b), x) == mul_spec(bi_at_x(a, x), bi_at_x(b, x)),
{
    let p = modulus();
    let ta = bi_trim(a);
    let tb = bi_trim(b);
    lemma_bi_at_x_trim(a, x);
    lemma_bi_at_x_trim(b, x);
    let ea = bi_at_x(a, x);
    let eb = bi_at_x(b, x);
    lemma_trim(bi_ev(ta, x));
    lemma_trim(bi_ev(tb, x));
    assert(ea.len() <= ta.len() && eb.len() <= tb.len());
    if ta.len() == 0 || tb.len() == 0 {
        assert(bi_mul_spec(a, b).len() == 0);
        assert(bi_ev(bi_mul_spec(a, b), x).len() == 0);
        lemma_trim(bi_ev(bi_mul_spec(a, b), x));
        assert(ea.len() == 0 || eb.len() == 0);
        assert(mul_spec(ea, eb).len() == 0);
    } else {
        let l = (ta.len() + tb.len() - 1) as nat;
        let g = Seq::new(l, |k: int| bi_conv(ta, tb, k, ta.len() as int));
        assert forall|k: int| #[trigger] coef(bi_at_x(bi_mul_spec(a, b), x), k) == coef(mul_spec(ea, eb), k) by {
            lemma_bi_at_x_coef(bi_mul_spec(a, b), x, k);
            lemma_bi_trim_eval(g, x, k);
            lemma_mul_spec_coef(ea, eb, k);
            if 0 <= k < l {
                lemma_bi_conv_eval(ta, tb, k, ta.len() as int, x);
                lemma_conv_upto_stable(ea, eb, k, ta.len() as int);
                lemma_eqm_mod(conv(ea, eb, k));
            } else if k >= l {
                assert(peval(Seq::<u32>::empty(), x) == 0);
                lemma_conv_high_zero(ea, eb, k, ea.len() as int);
            }
        }
        lemma_bi_at_x_coef(bi_mul_spec(a, b), x, 0);
        lemma_mul_trimmed(ea, eb);
        lemma_trimmed_eq(bi_at_x(bi_mul_spec(a, b), x), mul_spec(ea, eb));
    }
}

// ---------------------------------------------------------------------------
// Coefficients mod p
// ---------------------------------------------------------------------------

/// `u` and `v` have the same coefficients mod p.
pub open spec fn coefs_eqm(u: Seq<u32>, v: Seq<u32>) -> bool {
    forall|k: int| #[trigger] eqm(coef(u, k), coef(v, k))
}

/// Addition and subtraction only see coefficients mod p.
proof fn lemma_add_congr(a1: Seq<u32>, a2: Seq<u32>, b1: Seq<u32>, b2: Seq<u32>)
    requires
        coefs_eqm(a1, a2),
        coefs_eqm(b1, b2),
    ensures
        add_spec(a1, b1) == add_spec(a2, b2),
        sub_spec(a1, b1) == sub_spec(a2, b2),
{
    assert forall|k: int| #[trigger] coef(add_spec(a1, b1), k) == coef(add_spec(a2, b2), k) by {
        lemma_add_spec_coef(a1, b1, k);
        lemma_add_spec_coef(a2, b2, k);
        assert(eqm(coef(a1, k), coef(a2, k)) && eqm(coef(b1, k), coef(b2, k)));
        lemma_eqm_add(coef(a1, k), coef(a2, k), coef(b1, k), coef(b2, k));
    }
    assert forall|k: int| #[trigger] coef(sub_spec(a1, b1), k) == coef(sub_spec(a2, b2), k) by {
        lemma_add_spec_coef(a1, b1, k);
        lemma_add_spec_coef(a2, b2, k);
        assert(eqm(coef(a1, k), coef(a2, k)) && eqm(coef(b1, k), coef(b2, k)));
        lemma_eqm_sub(coef(a1, k), coef(a2, k), coef(b1, k), coef(b2, k));
    }
    lemma_add_trimmed(a1, b1);
    lemma_add_trimmed(a2, b2);
    lemma_trimmed_eq(add_spec(a1, b1), add_spec(a2, b2));
    lemma_trimmed_eq(sub_spec(a1, b1), sub_spec(a2, b2));
}

proof fn lemma_coefs_eqm_refl(u: Seq<u32>)
    ensures
        coefs_eqm(u, u),
{
}

// ---------------------------------------------------------------------------
// The permutation over F_p[X][Y]
// ---------------------------------------------------------------------------

/// The field constant `c` over F_p[X][Y].
pub open spec fn bi_const(c: u32) -> Seq<Seq<u32>> {
    if c % P == 0 {
        Seq::empty()
    } else {
        seq![seq![(c % P) as u32]]
    }
}

/// `f^3`.
pub open spec fn bi_cube(f: Seq<Seq<u32>>) -> Seq<Seq<u32>> {
    bi_mul_spec(bi_mul_spec(f, f), f)
}

/// `sum_{j < n} row[j] * s[j]`, accumulated in order.
pub open spec fn bi_dot(row: Seq<u32>, s: Seq<Seq<Seq<u32>>>, n: int) -> Seq<Seq<u32>>
    decreases n,
{
    if n <= 0 {
        Seq::empty()
    } else {
        bi_add_spec(bi_dot(row, s, n - 1), bi_scalar_spec(s[n - 1], row[n - 1]))
    }
}

pub open spec fn bi_mds(m: Seq<Seq<u32>>, s: Seq<Seq<Seq<u32>>>) -> Seq<Seq<Seq<u32>>> {
    Seq::new(s.len(), |i: int| bi_dot(m[i], s, s.len() as int))
}

pub open spec fn bi_add_rc(s: Seq<Seq<Seq<u32>>>, rc: Seq<u32>) -> Seq<Seq<Seq<u32>>> {
    Seq::new(s.len(), |i: int| bi_add_spec(s[i], bi_const(rc[i])))
}

pub open spec fn bi_full_round(m: Seq<Seq<u32>>, rc: Seq<u32>, s: Seq<Seq<Seq<u32>>>) -> Seq<Seq<Seq<u32>>> {
    let a = bi_add_rc(s, rc);
    bi_mds(m, Seq::new(s.len(), |i: int| bi_cube(a[i])))
}

pub open spec fn bi_partial_round(m: Seq<Seq<u32>>, rc: Seq<u32>, s: Seq<Seq<Seq<u32>>>) -> Seq<Seq<Seq<u32>>> {
    let a = bi_add_rc(s, rc);
    bi_mds(m, a.update(0, bi_cube(a[0])))
}

/// Rounds `0..k` over F_p[X][Y].
pub open spec fn bi_rounds(
    rcs: Seq<Seq<u32>>,
    m: Seq<Seq<u32>>,
    half: int,
    r_p: int,
    s: Seq<Seq<Seq<u32>>>,
    k: int,
) -> Seq<Seq<Seq<u32>>>
    decreases k,
{
    if k <= 0 {
        s
    } else {
        let prev = bi_rounds(rcs, m, half, r_p, s, k - 1);
        if half <= k - 1 < half + r_p {
            bi_partial_round(m, rcs[k - 1], prev)
        } else {
            bi_full_round(m, rcs[k - 1], prev)
        }
    }
}

/// The permutation (no initial linear layer) over F_p[X][Y].
pub open spec fn bi_perm(rcs: Seq<Seq<u32>>, m: Seq<Seq<u32>>, r_f: int, r_p: int, s: Seq<Seq<Seq<u32>>>) -> Seq<Seq<Seq<u32>>> {
    bi_rounds(rcs, m, r_f / 2, r_p, s, 2 * (r_f / 2) + r_p)
}

/// A state over F_p[X][Y] at `X = x`.
pub open spec fn state_at_x(s: Seq<Seq<Seq<u32>>>, x: int) -> Seq<Seq<u32>> {
    Seq::new(s.len(), |i: int| bi_at_x(s[i], x))
}

/// Two univariate states agree coefficientwise mod p.
pub open spec fn states_eqm(s1: Seq<Seq<u32>>, s2: Seq<Seq<u32>>) -> bool {
    s1.len() == s2.len() && forall|i: int| 0 <= i < s1.len() ==> #[trigger] coefs_eqm(s1[i], s2[i])
}

proof fn lemma_const_at_x(c: u32, x: int)
    ensures
        coefs_eqm(bi_at_x(bi_const(c), x), seq![c]),
{
    let p = modulus();
    assert forall|k: int| #[trigger] eqm(coef(bi_at_x(bi_const(c), x), k), coef(seq![c], k)) by {
        lemma_bi_at_x_coef(bi_const(c), x, k);
        if c % P != 0 && k == 0 {
            let e = seq![(c % P) as u32];
            assert(bi_coef(bi_const(c), 0) == e);
            assert(e.drop_first() =~= Seq::<u32>::empty());
            assert(peval(Seq::<u32>::empty(), x) == 0);
            lemma_mul_basics(x);
            assert(peval(e, x) == c % P);
            lemma_mod_twice(c as int, p);
        } else {
            assert(peval(Seq::<u32>::empty(), x) == 0);
            if k == 0 {
                assert(c % P == 0);
            }
        }
    }
}

/// Adding round constants commutes with specialising, from any state that
/// agrees coefficientwise.
proof fn lemma_add_rc_at_x(s: Seq<Seq<Seq<u32>>>, t: Seq<Seq<u32>>, rc: Seq<u32>, x: int)
    requires
        s.len() == 16,
        states_eqm(state_at_x(s, x), t),
    ensures
        state_at_x(bi_add_rc(s, rc), x) == crate::cico::poly_add_rc(t, rc),
{
    assert forall|i: int| 0 <= i < 16 implies #[trigger] state_at_x(bi_add_rc(s, rc), x)[i] == crate::cico::poly_add_rc(t, rc)[i] by {
        lemma_bi_add_at_x(s[i], bi_const(rc[i]), x);
        lemma_const_at_x(rc[i], x);
        assert(coefs_eqm(state_at_x(s, x)[i], t[i]));
        lemma_add_congr(bi_at_x(s[i], x), t[i], bi_at_x(bi_const(rc[i]), x), seq![rc[i]]);
    }
    assert(state_at_x(bi_add_rc(s, rc), x) =~= crate::cico::poly_add_rc(t, rc));
}

proof fn lemma_dot_at_x(row: Seq<u32>, s: Seq<Seq<Seq<u32>>>, n: int, x: int)
    requires
        0 <= n <= s.len(),
    ensures
        bi_at_x(bi_dot(row, s, n), x) == crate::cico::poly_dot(row, state_at_x(s, x), n),
    decreases n,
{
    if n == 0 {
        assert(bi_ev(Seq::<Seq<u32>>::empty(), x).len() == 0);
        lemma_trim(bi_ev(Seq::<Seq<u32>>::empty(), x));
    } else {
        lemma_dot_at_x(row, s, n - 1, x);
        lemma_bi_add_at_x(bi_dot(row, s, n - 1), bi_scalar_spec(s[n - 1], row[n - 1]), x);
        lemma_bi_scalar_at_x(s[n - 1], row[n - 1], x);
    }
}

proof fn lemma_mds_at_x(m: Seq<Seq<u32>>, s: Seq<Seq<Seq<u32>>>, x: int)
    requires
        s.len() == 16,
    ensures
        state_at_x(bi_mds(m, s), x) == crate::cico::poly_mds(m, state_at_x(s, x)),
{
    assert forall|i: int| 0 <= i < 16 implies #[trigger] state_at_x(bi_mds(m, s), x)[i] == crate::cico::poly_mds(m, state_at_x(s, x))[i] by {
        lemma_dot_at_x(m[i], s, 16, x);
    }
    assert(state_at_x(bi_mds(m, s), x) =~= crate::cico::poly_mds(m, state_at_x(s, x)));
}

proof fn lemma_cube_at_x(f: Seq<Seq<u32>>, x: int)
    ensures
        bi_at_x(bi_cube(f), x) == crate::cico::cube_poly(bi_at_x(f, x)),
{
    lemma_bi_mul_at_x(f, f, x);
    lemma_bi_mul_at_x(bi_mul_spec(f, f), f, x);
}

proof fn lemma_full_round_at_x(m: Seq<Seq<u32>>, rc: Seq<u32>, s: Seq<Seq<Seq<u32>>>, t: Seq<Seq<u32>>, x: int)
    requires
        s.len() == 16,
        states_eqm(state_at_x(s, x), t),
    ensures
        state_at_x(bi_full_round(m, rc, s), x) == crate::cico::poly_full_round(m, rc, t),
        bi_full_round(m, rc, s).len() == 16,
{
    let a = bi_add_rc(s, rc);
    let c = Seq::new(16, |i: int| bi_cube(a[i]));
    lemma_add_rc_at_x(s, t, rc, x);
    lemma_mds_at_x(m, c, x);
    let ta = crate::cico::poly_add_rc(t, rc);
    assert forall|i: int| 0 <= i < 16 implies #[trigger] state_at_x(c, x)[i] == crate::cico::cube_poly(ta[i]) by {
        lemma_cube_at_x(a[i], x);
        assert(state_at_x(a, x)[i] == ta[i]);
    }
    assert(state_at_x(c, x) =~= Seq::new(16, |i: int| crate::cico::cube_poly(ta[i])));
}

proof fn lemma_partial_round_at_x(m: Seq<Seq<u32>>, rc: Seq<u32>, s: Seq<Seq<Seq<u32>>>, t: Seq<Seq<u32>>, x: int)
    requires
        s.len() == 16,
        states_eqm(state_at_x(s, x), t),
    ensures
        state_at_x(bi_partial_round(m, rc, s), x) == crate::cico::poly_partial_round(m, rc, t),
        bi_partial_round(m, rc, s).len() == 16,
{
    let a = bi_add_rc(s, rc);
    let c = a.update(0, bi_cube(a[0]));
    lemma_add_rc_at_x(s, t, rc, x);
    lemma_mds_at_x(m, c, x);
    let ta = crate::cico::poly_add_rc(t, rc);
    lemma_cube_at_x(a[0], x);
    assert(state_at_x(a, x)[0] == ta[0]);
    assert forall|i: int| 0 <= i < 16 implies #[trigger] state_at_x(c, x)[i] == ta.update(0, crate::cico::cube_poly(ta[0]))[i] by {
        if i != 0 {
            assert(state_at_x(a, x)[i] == ta[i]);
        }
    }
    assert(state_at_x(c, x) =~= ta.update(0, crate::cico::cube_poly(ta[0])));
}

proof fn lemma_states_eqm_refl(t: Seq<Seq<u32>>)
    ensures
        states_eqm(t, t),
{
}

/// Specialising `X = x` commutes with the rounds: after at least one round
/// the two states are equal, and before any they agree coefficientwise.
pub proof fn lemma_rounds_at_x(
    rcs: Seq<Seq<u32>>,
    m: Seq<Seq<u32>>,
    half: int,
    r_p: int,
    s: Seq<Seq<Seq<u32>>>,
    t: Seq<Seq<u32>>,
    k: int,
    x: int,
)
    requires
        s.len() == 16,
        states_eqm(state_at_x(s, x), t),
    ensures
        states_eqm(state_at_x(bi_rounds(rcs, m, half, r_p, s, k), x), crate::cico::poly_rounds(rcs, m, half, r_p, t, k)),
        bi_rounds(rcs, m, half, r_p, s, k).len() == 16,
    decreases k,
{
    if k > 0 {
        lemma_rounds_at_x(rcs, m, half, r_p, s, t, k - 1, x);
        let prev = bi_rounds(rcs, m, half, r_p, s, k - 1);
        let tprev = crate::cico::poly_rounds(rcs, m, half, r_p, t, k - 1);
        if half <= k - 1 < half + r_p {
            lemma_partial_round_at_x(m, rcs[k - 1], prev, tprev, x);
        } else {
            lemma_full_round_at_x(m, rcs[k - 1], prev, tprev, x);
        }
        lemma_states_eqm_refl(state_at_x(bi_rounds(rcs, m, half, r_p, s, k), x));
    }
}

// ---------------------------------------------------------------------------
// Executable bivariate permutation
// ---------------------------------------------------------------------------

/// The views of a state of bivariate polynomials.
pub open spec fn bi_states(v: Seq<BiPoly>) -> Seq<Seq<Seq<u32>>> {
    v.map_values(|b: BiPoly| bi_view(b@))
}

/// Every entry has X-coefficients at most `bx` long and at most `by`
/// Y-coefficients.
pub open spec fn bi_states_within(s: Seq<Seq<Seq<u32>>>, bx: int, by: int) -> bool {
    forall|i: int| 0 <= i < s.len() ==> bi_within(#[trigger] s[i], bx) && s[i].len() <= by
}

proof fn lemma_bi_add_within(a: Seq<Seq<u32>>, b: Seq<Seq<u32>>, bx: int)
    requires
        bi_within(a, bx),
        bi_within(b, bx),
        bx >= 0,
    ensures
        bi_within(bi_add_spec(a, b), bx),
        bi_within(bi_sub_spec(a, b), bx),
        bi_add_spec(a, b).len() <= (if a.len() >= b.len() { a.len() } else { b.len() }),
        bi_sub_spec(a, b).len() <= (if a.len() >= b.len() { a.len() } else { b.len() }),
{
    let n = if a.len() >= b.len() { a.len() } else { b.len() };
    let ga = Seq::new(n, |i: int| add_spec(bi_coef(a, i), bi_coef(b, i)));
    let gs = Seq::new(n, |i: int| sub_spec(bi_coef(a, i), bi_coef(b, i)));
    lemma_bi_trim_facts(ga);
    lemma_bi_trim_facts(gs);
    assert forall|i: int| 0 <= i < bi_trim(ga).len() implies reduced(#[trigger] bi_trim(ga)[i]) && bi_trim(ga)[i].len() <= bx by {
        assert(bi_trim(ga)[i] == ga[i]);
        lemma_add_len(bi_coef(a, i), bi_coef(b, i));
    }
    assert forall|i: int| 0 <= i < bi_trim(gs).len() implies reduced(#[trigger] bi_trim(gs)[i]) && bi_trim(gs)[i].len() <= bx by {
        assert(bi_trim(gs)[i] == gs[i]);
        lemma_sub_len_bi(bi_coef(a, i), bi_coef(b, i));
    }
}

proof fn lemma_sub_len_bi(a: Seq<u32>, b: Seq<u32>)
    ensures
        sub_spec(a, b).len() <= max_len(a, b),
        reduced(sub_spec(a, b)),
{
    lemma_trim(from_fn(max_len(a, b), sub_coefs(a, b)));
    crate::poly_spec::lemma_ops_canon(a, b, 0);
}

proof fn lemma_bi_scalar_within(a: Seq<Seq<u32>>, c: u32, bx: int)
    requires
        bi_within(a, bx),
    ensures
        bi_within(bi_scalar_spec(a, c), bx),
        bi_scalar_spec(a, c).len() <= a.len(),
{
    if c % P != 0 {
        let g = Seq::new(a.len(), |i: int| scalar_spec(a[i], (c % P) as int));
        lemma_bi_trim_facts(g);
        assert forall|i: int| 0 <= i < bi_trim(g).len() implies reduced(#[trigger] bi_trim(g)[i]) && bi_trim(g)[i].len() <= bx by {
            assert(bi_trim(g)[i] == g[i]);
            lemma_scalar_len(a[i], (c % P) as int);
        }
    }
}

/// The linear layer on a state of bivariate polynomials.
pub fn mds_bi(state: &[BiPoly], mds_n: &[Vec<u32>], Ghost(bx): Ghost<int>, Ghost(by): Ghost<int>) -> (out: Vec<BiPoly>)
    requires
        bx >= 0,
        by >= 0,
        mds_n.len() >= state.len(),
        forall|i: int| 0 <= i < state.len() ==> #[trigger] mds_n[i].len() >= state.len(),
        bi_states_within(bi_states(state@), bx, by),
    ensures
        out.len() == state.len(),
        bi_states(out@) == bi_mds(polys(mds_n@), bi_states(state@)),
        bi_states_within(bi_states(out@), bx, by),
{
    let t = state.len();
    let ghost s = bi_states(state@);
    let ghost m = polys(mds_n@);
    let mut out: Vec<BiPoly> = Vec::new();
    let mut i: usize = 0;
    while i < t
        invariant
            t == state.len(),
            s == bi_states(state@),
            m == polys(mds_n@),
            mds_n.len() >= t,
            forall|a: int| 0 <= a < t ==> #[trigger] mds_n[a].len() >= t,
            bi_states_within(s, bx, by),
            bx >= 0,
            by >= 0,
            i <= t,
            out.len() == i,
            forall|a: int| 0 <= a < i ==> #[trigger] bi_view(out@[a]@) == bi_dot(m[a], s, t as int),
            forall|a: int| 0 <= a < i ==> bi_within(#[trigger] bi_view(out@[a]@), bx) && out@[a]@.len() <= by,
        decreases t - i,
    {
        let mut acc: BiPoly = Vec::new();
        let mut j: usize = 0;
        proof {
            assert(bi_view(acc@) =~= bi_dot(m[i as int], s, 0));
        }
        while j < t
            invariant
                t == state.len(),
                s == bi_states(state@),
                m == polys(mds_n@),
                i < t,
                mds_n.len() >= t,
                forall|a: int| 0 <= a < t ==> #[trigger] mds_n[a].len() >= t,
                bi_states_within(s, bx, by),
                bx >= 0,
                by >= 0,
                j <= t,
                bi_view(acc@) == bi_dot(m[i as int], s, j as int),
                bi_within(bi_view(acc@), bx),
                acc.len() <= by,
            decreases t - j,
        {
            assert(mds_n[i as int].len() >= t);
            let c = mds_n[i][j];
            proof {
                assert(bi_within(s[j as int], bx) && s[j as int].len() <= by);
                assert(s[j as int] == bi_view(state@[j as int]@));
                assert(m[i as int][j as int] == c);
                lemma_bi_scalar_within(s[j as int], c, bx);
            }
            let sc = crate::bipoly::scalar(&state[j], c);
            proof {
                lemma_bi_add_within(bi_view(acc@), bi_view(sc@), bx);
            }
            acc = crate::bipoly::add(&acc, &sc);
            j += 1;
        }
        out.push(acc);
        i += 1;
    }
    proof {
        assert(bi_states(out@) =~= bi_mds(m, s));
        assert forall|a: int| 0 <= a < out.len() implies bi_within(#[trigger] bi_states(out@)[a], bx) && bi_states(out@)[a].len() <= by by {
            assert(bi_states(out@)[a] == bi_view(out@[a]@));
        }
    }
    out
}

proof fn lemma_const_within(c: u32)
    ensures
        bi_within(bi_const(c), 1),
        bi_const(c).len() <= 1,
{
}

/// Adds the round constants of round `idx`.
fn add_rc_bi(pos: &Poseidon1, s: Vec<BiPoly>, idx: usize, Ghost(bx): Ghost<int>, Ghost(by): Ghost<int>) -> (out: Vec<BiPoly>)
    requires
        pos.wf(),
        idx < pos.r_f + pos.r_p,
        s.len() == 16,
        1 <= bx,
        1 <= by,
        bi_states_within(bi_states(s@), bx, by),
    ensures
        out.len() == 16,
        bi_states(out@) == bi_add_rc(bi_states(s@), pos.rc_model()[idx as int]),
        bi_states_within(bi_states(out@), bx, by),
{
    let ghost s0 = bi_states(s@);
    let ghost rc = pos.rc_model()[idx as int];
    let mut x = s;
    proof {
        assert forall|k: int| 0 <= k < 16 implies bi_within(#[trigger] bi_view(x@[k]@), bx) && x@[k]@.len() <= by by {
            assert(s0[k] == bi_view(x@[k]@));
            assert(bi_within(s0[k], bx) && s0[k].len() <= by);
        }
    }
    let mut i: usize = 0;
    while i < 16
        invariant
            pos.wf(),
            idx < pos.r_f + pos.r_p,
            rc == pos.rc_model()[idx as int],
            x.len() == 16,
            1 <= bx,
            1 <= by,
            bi_states_within(s0, bx, by),
            s0.len() == 16,
            i <= 16,
            forall|k: int| 0 <= k < i ==> #[trigger] bi_view(x@[k]@) == bi_add_spec(s0[k], bi_const(rc[k])),
            forall|k: int| i <= k < 16 ==> #[trigger] bi_view(x@[k]@) == s0[k],
            forall|k: int| 0 <= k < 16 ==> bi_within(#[trigger] bi_view(x@[k]@), bx) && x@[k]@.len() <= by,
        decreases 16 - i,
    {
        assert(pos.rc_n@[idx as int]@.len() == 16);
        let c = pos.rc_n[idx][i];
        let k = crate::bipoly::constant(c);
        proof {
            assert(rc[i as int] == c);
            assert(bi_view(k@) == bi_const(c));
            lemma_const_within(c);
            lemma_bi_within_weaken(bi_const(c), 1, bx);
            assert(bi_within(bi_view(x@[i as int]@), bx));
            lemma_bi_add_within(bi_view(x@[i as int]@), bi_const(c), bx);
        }
        let v = crate::bipoly::add(&x[i], &k);
        proof {
            assert(bi_view(v@).len() == v@.len());
            assert(bi_within(bi_view(v@), bx));
            assert(v@.len() <= by);
        }
        x.set(i, v);
        proof {
            assert(x@[i as int] == v);
            assert(bi_view(x@[i as int]@) == bi_view(v@));
        }
        i += 1;
    }
    proof {
        assert(bi_states(x@) =~= bi_add_rc(s0, rc));
        assert forall|k: int| 0 <= k < 16 implies bi_within(#[trigger] bi_states(x@)[k], bx) && bi_states(x@)[k].len() <= by by {
            assert(bi_states(x@)[k] == bi_view(x@[k]@));
        }
    }
    x
}

/// The cube, with its size bound.
fn cube_bi(f: &[pl::Poly], Ghost(bx): Ghost<int>) -> (r: BiPoly)
    requires
        1 <= bx <= 4194304,
        bi_within(bi_view(f@), bx),
        f.len() <= 4194304,
    ensures
        bi_view(r@) == bi_cube(bi_view(f@)),
        bi_within(bi_view(r@), 4 * bx),
        r.len() <= 3 * f.len(),
{
    let r = crate::bipoly::cube(f);
    proof {
        let fv = bi_view(f@);
        lemma_bi_mul_within(fv, fv, bx);
        lemma_bi_within_weaken(fv, bx, 2 * bx);
        lemma_bi_mul_within(bi_mul_spec(fv, fv), fv, 2 * bx);
        lemma_bi_mul_len(fv, fv);
        lemma_bi_mul_len(bi_mul_spec(fv, fv), fv);
    }
    r
}

proof fn lemma_bi_mul_len(a: Seq<Seq<u32>>, b: Seq<Seq<u32>>)
    ensures
        bi_mul_spec(a, b).len() <= a.len() + b.len(),
{
    let ta = bi_trim(a);
    let tb = bi_trim(b);
    lemma_bi_trim_facts(a);
    lemma_bi_trim_facts(b);
    if ta.len() > 0 && tb.len() > 0 {
        let g = Seq::new((ta.len() + tb.len() - 1) as nat, |k: int| bi_conv(ta, tb, k, ta.len() as int));
        lemma_bi_trim_facts(g);
    }
}

/// One full round over F_p[X][Y].
fn full_round_bi(pos: &Poseidon1, s: Vec<BiPoly>, idx: usize, Ghost(b): Ghost<int>) -> (out: Vec<BiPoly>)
    requires
        pos.wf(),
        idx < pos.r_f + pos.r_p,
        s.len() == 16,
        1 <= b <= 1048576,
        bi_states_within(bi_states(s@), b, b),
    ensures
        out.len() == 16,
        bi_states(out@) == bi_full_round(pos.mds_model(), pos.rc_model()[idx as int], bi_states(s@)),
        bi_states_within(bi_states(out@), 4 * b, 4 * b),
{
    let ghost s0 = bi_states(s@);
    let ghost a = bi_add_rc(s0, pos.rc_model()[idx as int]);
    let mut x = add_rc_bi(pos, s, idx, Ghost(b), Ghost(b));
    proof {
        assert forall|k: int| 0 <= k < 16 implies bi_within(#[trigger] bi_view(x@[k]@), 4 * b) && x@[k]@.len() <= 4 * b by {
            assert(bi_states(x@)[k] == bi_view(x@[k]@));
            assert(bi_within(a[k], b) && a[k].len() <= b);
            lemma_bi_within_weaken(a[k], b, 4 * b);
        }
    }
    let mut i: usize = 0;
    while i < 16
        invariant
            x.len() == 16,
            1 <= b <= 1048576,
            a.len() == 16,
            bi_states_within(a, b, b),
            i <= 16,
            forall|k: int| 0 <= k < i ==> #[trigger] bi_view(x@[k]@) == bi_cube(a[k]),
            forall|k: int| i <= k < 16 ==> #[trigger] bi_view(x@[k]@) == a[k],
            forall|k: int| 0 <= k < 16 ==> bi_within(#[trigger] bi_view(x@[k]@), 4 * b) && x@[k]@.len() <= 4 * b,
        decreases 16 - i,
    {
        proof {
            assert(bi_view(x@[i as int]@) == a[i as int]);
            assert(bi_within(a[i as int], b) && a[i as int].len() <= b);
        }
        let v = cube_bi(&x[i], Ghost(b));
        x.set(i, v);
        i += 1;
    }
    proof {
        assert(bi_states(x@) =~= Seq::new(16, |k: int| bi_cube(a[k])));
        assert forall|k: int| 0 <= k < 16 implies bi_within(#[trigger] bi_states(x@)[k], 4 * b) && bi_states(x@)[k].len() <= 4 * b by {
            assert(bi_states(x@)[k] == bi_view(x@[k]@));
        }
    }
    mds_bi(&x, &pos.mds_n, Ghost(4 * b), Ghost(4 * b))
}

/// One partial round over F_p[X][Y].
fn partial_round_bi(pos: &Poseidon1, s: Vec<BiPoly>, idx: usize, Ghost(b): Ghost<int>) -> (out: Vec<BiPoly>)
    requires
        pos.wf(),
        idx < pos.r_f + pos.r_p,
        s.len() == 16,
        1 <= b <= 1048576,
        bi_states_within(bi_states(s@), b, b),
    ensures
        out.len() == 16,
        bi_states(out@) == bi_partial_round(pos.mds_model(), pos.rc_model()[idx as int], bi_states(s@)),
        bi_states_within(bi_states(out@), 4 * b, 4 * b),
{
    let ghost s0 = bi_states(s@);
    let ghost a = bi_add_rc(s0, pos.rc_model()[idx as int]);
    let mut x = add_rc_bi(pos, s, idx, Ghost(b), Ghost(b));
    proof {
        assert(bi_states(x@)[0] == a[0]);
        assert(bi_within(a[0], b) && a[0].len() <= b);
    }
    let v = cube_bi(&x[0], Ghost(b));
    x.set(0, v);
    proof {
        assert(bi_states(x@) =~= a.update(0, bi_cube(a[0])));
        assert forall|k: int| 0 <= k < 16 implies bi_within(#[trigger] bi_states(x@)[k], 4 * b) && bi_states(x@)[k].len() <= 4 * b by {
            if k != 0 {
                assert(bi_within(a[k], b) && a[k].len() <= b);
                lemma_bi_within_weaken(a[k], b, 4 * b);
            }
        }
    }
    mds_bi(&x, &pos.mds_n, Ghost(4 * b), Ghost(4 * b))
}

/// The permutation (no initial linear layer) over F_p[X][Y], from a state of
/// degree at most one in each variable.
pub fn permutation_bi(pos: &Poseidon1, state: &[BiPoly]) -> (out: Vec<BiPoly>)
    requires
        pos.wf(),
        pos.alpha == 3,
        state.len() == 16,
        bi_states_within(bi_states(state@), 2, 2),
        pow(4, (pos.r_f + pos.r_p) as nat) <= 524288,
    ensures
        out.len() == 16,
        bi_states(out@) == bi_perm(pos.rc_model(), pos.mds_model(), pos.r_f as int, pos.r_p as int, bi_states(state@)),
        bi_states_within(bi_states(out@), 2 * pow(4, (pos.r_f + pos.r_p) as nat), 2 * pow(4, (pos.r_f + pos.r_p) as nat)),
{
    let ghost rcs = pos.rc_model();
    let ghost m = pos.mds_model();
    let ghost total = (pos.r_f + pos.r_p) as nat;
    let mut s: Vec<BiPoly> = Vec::new();
    let mut i: usize = 0;
    while i < 16
        invariant
            state.len() == 16,
            i <= 16,
            s.len() == i,
            forall|k: int| 0 <= k < i ==> #[trigger] bi_view(s@[k]@) == bi_view(state@[k]@),
        decreases 16 - i,
    {
        let c = crate::bipoly::copy_bi(&state[i]);
        s.push(c);
        i += 1;
    }
    proof {
        assert(bi_states(s@) =~= bi_states(state@));
    }
    let ghost s0 = bi_states(s@);
    let half = pos.r_f / 2;
    let total_rounds = pos.rc_n.len();
    assert(half + pos.r_p <= total_rounds && 2 * half + pos.r_p <= total_rounds);
    let mid = half + pos.r_p;
    let end = mid + half;
    let mut idx: usize = 0;
    proof {
        lemma_pow_positive(4, total);
        lemma_pow0(4);
    }
    while idx < end
        invariant
            pos.wf(),
            rcs == pos.rc_model(),
            m == pos.mds_model(),
            total == pos.r_f + pos.r_p,
            pow(4, total) <= 524288,
            half == pos.r_f / 2,
            mid == half + pos.r_p,
            end == 2 * half + pos.r_p,
            idx <= end,
            s.len() == 16,
            bi_states_within(bi_states(s@), 2 * pow(4, idx as nat), 2 * pow(4, idx as nat)),
            bi_states(s@) == bi_rounds(rcs, m, half as int, pos.r_p as int, s0, idx as int),
        decreases end - idx,
    {
        proof {
            lemma_pow_increases(4, (idx + 1) as nat, total);
            lemma_pow_positive(4, idx as nat);
            lemma_pow_adds(4, idx as nat, 1);
            lemma_pow1(4);
            assert(pow(4, (idx + 1) as nat) == 4 * pow(4, idx as nat));
        }
        let ghost b = 2 * pow(4, idx as nat);
        if half <= idx && idx < mid {
            s = partial_round_bi(pos, s, idx, Ghost(b));
        } else {
            s = full_round_bi(pos, s, idx, Ghost(b));
        }
        idx += 1;
    }
    proof {
        lemma_pow_increases(4, idx as nat, total);
        let bb = 2 * pow(4, total);
        assert forall|k: int| 0 <= k < 16 implies bi_within(#[trigger] bi_states(s@)[k], bb) && bi_states(s@)[k].len() <= bb by {
            assert(bi_within(bi_states(s@)[k], 2 * pow(4, idx as nat)) && bi_states(s@)[k].len() <= 2 * pow(4, idx as nat));
            lemma_bi_within_weaken(bi_states(s@)[k], 2 * pow(4, idx as nat), bb);
        }
    }
    s
}

// ---------------------------------------------------------------------------
// The residual pair over F_p[X][Y]
// ---------------------------------------------------------------------------

/// An Fp2 element whose coordinates are bivariate polynomials.
pub type Fp2Bi = (BiPoly, BiPoly);

pub open spec fn fp2b(g: Fp2Bi) -> (Seq<Seq<u32>>, Seq<Seq<u32>>) {
    (bi_view(g.0@), bi_view(g.1@))
}

/// Both coordinates of degree at most one in each variable.
pub open spec fn fp2b_ok(g: (Seq<Seq<u32>>, Seq<Seq<u32>>)) -> bool {
    &&& bi_within(g.0, 2)
    &&& g.0.len() <= 2
    &&& bi_within(g.1, 2)
    &&& g.1.len() <= 2
}

/// `root * g`.
pub open spec fn bi_rmul_spec(root: Fp2, g: (Seq<Seq<u32>>, Seq<Seq<u32>>)) -> (Seq<Seq<u32>>, Seq<Seq<u32>>) {
    (
        bi_add_spec(bi_scalar_spec(g.0, root.c0), bi_scalar_spec(g.1, ((3 * root.c1) % modulus()) as u32)),
        bi_add_spec(bi_scalar_spec(g.1, root.c0), bi_scalar_spec(g.0, root.c1)),
    )
}

pub open spec fn bi_neg_spec(g: (Seq<Seq<u32>>, Seq<Seq<u32>>)) -> (Seq<Seq<u32>>, Seq<Seq<u32>>) {
    (bi_scalar_spec(g.0, (P - 1) as u32), bi_scalar_spec(g.1, (P - 1) as u32))
}

pub open spec fn bi_sub2_spec(a: (Seq<Seq<u32>>, Seq<Seq<u32>>), b: (Seq<Seq<u32>>, Seq<Seq<u32>>)) -> (Seq<Seq<u32>>, Seq<Seq<u32>>) {
    (bi_sub_spec(a.0, b.0), bi_sub_spec(a.1, b.1))
}

/// The cofactor with coefficient `var_idx` equal to `X + Y s`.
pub open spec fn bi_cofactor_spec(base: Seq<Fp2>, var_idx: int) -> Seq<(Seq<Seq<u32>>, Seq<Seq<u32>>)> {
    Seq::new(
        7,
        |j: int|
            if j == var_idx {
                (seq![seq![0u32, 1u32]], seq![Seq::<u32>::empty(), seq![1u32]])
            } else {
                (bi_const(base[j].c0), bi_const(base[j].c1))
            },
    )
}

pub open spec fn bi_rf_coef_spec(root: Fp2, g: Seq<(Seq<Seq<u32>>, Seq<Seq<u32>>)>, j: int) -> (Seq<Seq<u32>>, Seq<Seq<u32>>) {
    if j == 0 {
        bi_neg_spec(bi_rmul_spec(root, g[0]))
    } else if j < 7 {
        bi_sub2_spec(g[j - 1], bi_rmul_spec(root, g[j]))
    } else {
        g[6]
    }
}

/// The flat 16-word root-first state over F_p[X][Y].
pub open spec fn bi_rf_state_spec(root: Fp2, g: Seq<(Seq<Seq<u32>>, Seq<Seq<u32>>)>) -> Seq<Seq<Seq<u32>>> {
    Seq::new(16, |i: int| if i % 2 == 0 { bi_rf_coef_spec(root, g, i / 2).0 } else { bi_rf_coef_spec(root, g, i / 2).1 })
}

/// The compression-mode hash over F_p[X][Y].
pub open spec fn bi_comp_spec(rcs: Seq<Seq<u32>>, m: Seq<Seq<u32>>, r_f: int, r_p: int, input: Seq<Seq<Seq<u32>>>) -> Seq<Seq<Seq<u32>>> {
    let o = bi_perm(rcs, m, r_f, r_p, input);
    Seq::new(16, |i: int| bi_add_spec(o[i], input[i]))
}

/// The residual pair `H(P) - root` over F_p[X][Y].
pub open spec fn bi_residual_spec(pos: &Poseidon1, root: Fp2, base: Seq<Fp2>, var_idx: int) -> (Seq<Seq<u32>>, Seq<Seq<u32>>) {
    let c = bi_comp_spec(pos.rc_model(), pos.mds_model(), pos.r_f as int, pos.r_p as int, bi_rf_state_spec(root, bi_cofactor_spec(base, var_idx)));
    (bi_trim(bi_sub_spec(c[0], bi_const(root.c0))), bi_trim(bi_sub_spec(c[1], bi_const(root.c1))))
}

/// The bivariate residual pair of the canonical instance with `rf`, `rp` rounds.
pub open spec fn canonical_bi_residuals(rf: usize, rp: usize, root: Fp2, base: Seq<Fp2>, var_idx: int) -> (Seq<Seq<u32>>, Seq<Seq<u32>>) {
    let c = bi_comp_spec(canonical_rcs(3, rf as nat, rp as nat), canonical_mds(), rf as int, rp as int, bi_rf_state_spec(root, bi_cofactor_spec(base, var_idx)));
    (bi_trim(bi_sub_spec(c[0], bi_const(root.c0))), bi_trim(bi_sub_spec(c[1], bi_const(root.c1))))
}

proof fn lemma_scalar_congr(a1: Seq<u32>, a2: Seq<u32>, c: int)
    requires
        coefs_eqm(a1, a2),
    ensures
        scalar_spec(a1, c) == scalar_spec(a2, c),
{
    assert forall|k: int| #[trigger] coef(scalar_spec(a1, c), k) == coef(scalar_spec(a2, c), k) by {
        lemma_scalar_spec_coef(a1, c, k);
        lemma_scalar_spec_coef(a2, c, k);
        assert(eqm(coef(a1, k), coef(a2, k)));
        lemma_eqm_mul2(coef(a1, k), c, coef(a2, k), c);
    }
    lemma_scalar_trimmed(a1, c);
    lemma_scalar_trimmed(a2, c);
    lemma_trimmed_eq(scalar_spec(a1, c), scalar_spec(a2, c));
}

proof fn lemma_coefs_eqm_of_eq(u: Seq<u32>, v: Seq<u32>)
    requires
        u == v,
    ensures
        coefs_eqm(u, v),
{
}

/// `root * g` specialises coordinatewise.
proof fn lemma_rmul_at_x(root: Fp2, g: (Seq<Seq<u32>>, Seq<Seq<u32>>), l: (Seq<u32>, Seq<u32>), x: int)
    requires
        fp2_ok(root),
        coefs_eqm(bi_at_x(g.0, x), l.0),
        coefs_eqm(bi_at_x(g.1, x), l.1),
    ensures
        bi_at_x(bi_rmul_spec(root, g).0, x) == rmul_spec(root, l).0,
        bi_at_x(bi_rmul_spec(root, g).1, x) == rmul_spec(root, l).1,
        bi_at_x(bi_neg_spec(bi_rmul_spec(root, g)).0, x) == neg_spec(rmul_spec(root, l)).0,
        bi_at_x(bi_neg_spec(bi_rmul_spec(root, g)).1, x) == neg_spec(rmul_spec(root, l)).1,
{
    let k3 = ((3 * root.c1) % modulus()) as u32;
    let e0 = bi_at_x(g.0, x);
    let e1 = bi_at_x(g.1, x);
    lemma_bi_scalar_at_x(g.0, root.c0, x);
    lemma_bi_scalar_at_x(g.1, k3, x);
    lemma_bi_scalar_at_x(g.1, root.c0, x);
    lemma_bi_scalar_at_x(g.0, root.c1, x);
    lemma_bi_add_at_x(bi_scalar_spec(g.0, root.c0), bi_scalar_spec(g.1, k3), x);
    lemma_bi_add_at_x(bi_scalar_spec(g.1, root.c0), bi_scalar_spec(g.0, root.c1), x);
    lemma_scalar_congr(e0, l.0, root.c0 as int);
    lemma_scalar_congr(e1, l.1, k3 as int);
    lemma_scalar_congr(e1, l.1, root.c0 as int);
    lemma_scalar_congr(e0, l.0, root.c1 as int);
    let r = bi_rmul_spec(root, g);
    lemma_bi_scalar_at_x(r.0, (P - 1) as u32, x);
    lemma_bi_scalar_at_x(r.1, (P - 1) as u32, x);
}

proof fn lemma_cofactor_at_x(base: Seq<Fp2>, var_idx: int, x: u32, j: int)
    requires
        0 <= var_idx < 7,
        0 <= j < 7,
        x < P,
        fp2s_ok(base),
    ensures
        coefs_eqm(bi_at_x(bi_cofactor_spec(base, var_idx)[j].0, x as int), line_spec(base, var_idx, x)[j].0),
        coefs_eqm(bi_at_x(bi_cofactor_spec(base, var_idx)[j].1, x as int), line_spec(base, var_idx, x)[j].1),
{
    let g = bi_cofactor_spec(base, var_idx)[j];
    let l = line_spec(base, var_idx, x);
    let xi = x as int;
    assert(peval(Seq::<u32>::empty(), xi) == 0);
    lemma_mul_basics(xi);
    if j == var_idx {
        let vx = seq![0u32, 1u32];
        assert(vx.drop_first() =~= seq![1u32]);
        assert(vx.drop_first().drop_first() =~= Seq::<u32>::empty());
        assert(peval(seq![1u32], xi) == 1);
        assert(peval(vx, xi) == x);
        assert forall|k: int| #[trigger] eqm(coef(bi_at_x(g.0, xi), k), coef(l[j].0, k)) by {
            lemma_bi_at_x_coef(g.0, xi, k);
            if k == 0 {
                assert(bi_coef(g.0, 0) == vx);
                lemma_small_mod(x as nat, P as nat);
            }
        }
        assert forall|k: int| #[trigger] eqm(coef(bi_at_x(g.1, xi), k), coef(l[j].1, k)) by {
            lemma_bi_at_x_coef(g.1, xi, k);
            if k == 1 {
                assert(bi_coef(g.1, 1) == seq![1u32]);
                assert(seq![1u32].drop_first() =~= Seq::<u32>::empty());
            }
        }
    } else {
        assert(fp2_ok(base[j]));
        lemma_const_at_x(base[j].c0, xi);
        lemma_const_at_x(base[j].c1, xi);
        lemma_trim(seq![base[j].c0]);
        lemma_trim(seq![base[j].c1]);
        assert forall|k: int| #[trigger] eqm(coef(bi_at_x(g.0, xi), k), coef(l[j].0, k)) by {
            assert(eqm(coef(bi_at_x(bi_const(base[j].c0), xi), k), coef(seq![base[j].c0], k)));
            assert(coef(trim_spec(seq![base[j].c0]), k) == coef(seq![base[j].c0], k));
        }
        assert forall|k: int| #[trigger] eqm(coef(bi_at_x(g.1, xi), k), coef(l[j].1, k)) by {
            assert(eqm(coef(bi_at_x(bi_const(base[j].c1), xi), k), coef(seq![base[j].c1], k)));
            assert(coef(trim_spec(seq![base[j].c1]), k) == coef(seq![base[j].c1], k));
        }
    }
}

/// The bivariate root-first state specialises, coefficientwise, to the
/// state of the coordinate line at `X = x`.
proof fn lemma_state_at_x(root: Fp2, base: Seq<Fp2>, var_idx: int, x: u32)
    requires
        fp2_ok(root),
        0 <= var_idx < 7,
        x < P,
        fp2s_ok(base),
    ensures
        states_eqm(state_at_x(bi_rf_state_spec(root, bi_cofactor_spec(base, var_idx)), x as int), rf_state_spec(root, line_spec(base, var_idx, x))),
{
    let g = bi_cofactor_spec(base, var_idx);
    let l = line_spec(base, var_idx, x);
    let xi = x as int;
    let sb = bi_rf_state_spec(root, g);
    let su = rf_state_spec(root, l);
    assert forall|i: int| 0 <= i < 16 implies #[trigger] coefs_eqm(state_at_x(sb, xi)[i], su[i]) by {
        let j = i / 2;
        if j == 0 {
            lemma_cofactor_at_x(base, var_idx, x, 0);
            lemma_rmul_at_x(root, g[0], l[0], xi);
        } else if j < 7 {
            lemma_cofactor_at_x(base, var_idx, x, j - 1);
            lemma_cofactor_at_x(base, var_idx, x, j);
            lemma_rmul_at_x(root, g[j], l[j], xi);
            let r = bi_rmul_spec(root, g[j]);
            lemma_bi_add_at_x(g[j - 1].0, r.0, xi);
            lemma_bi_add_at_x(g[j - 1].1, r.1, xi);
            lemma_coefs_eqm_of_eq(bi_at_x(r.0, xi), rmul_spec(root, l[j]).0);
            lemma_coefs_eqm_of_eq(bi_at_x(r.1, xi), rmul_spec(root, l[j]).1);
            lemma_add_congr(bi_at_x(g[j - 1].0, xi), l[j - 1].0, bi_at_x(r.0, xi), rmul_spec(root, l[j]).0);
            lemma_add_congr(bi_at_x(g[j - 1].1, xi), l[j - 1].1, bi_at_x(r.1, xi), rmul_spec(root, l[j]).1);
        } else {
            lemma_cofactor_at_x(base, var_idx, x, 6);
        }
    }
}

/// The residual pair built once over F_p[X][Y], specialised at `X = x`, is
/// the residual pair built directly at `x`.
pub proof fn lemma_residual_bi_at_x(pos: &Poseidon1, root: Fp2, base: Seq<Fp2>, var_idx: int, x: u32)
    requires
        pos.wf(),
        fp2_ok(root),
        0 <= var_idx < 7,
        x < P,
        fp2s_ok(base),
    ensures
        bi_at_x(bi_residual_spec(pos, root, base, var_idx).0, x as int) == line_residuals(pos, root, base, var_idx, x).0,
        bi_at_x(bi_residual_spec(pos, root, base, var_idx).1, x as int) == line_residuals(pos, root, base, var_idx, x).1,
{
    let rcs = pos.rc_model();
    let m = pos.mds_model();
    let rf = pos.r_f as int;
    let rp = pos.r_p as int;
    let xi = x as int;
    let sb = bi_rf_state_spec(root, bi_cofactor_spec(base, var_idx));
    let su = rf_state_spec(root, line_spec(base, var_idx, x));
    lemma_state_at_x(root, base, var_idx, x);
    lemma_rounds_at_x(rcs, m, rf / 2, rp, sb, su, 2 * (rf / 2) + rp, xi);
    let ob = bi_perm(rcs, m, rf, rp, sb);
    let ou = poly_perm(rcs, m, rf, rp, su);
    let cb = bi_comp_spec(rcs, m, rf, rp, sb);
    let cu = comp_poly_spec(rcs, m, rf, rp, su);
    assert forall|i: int| 0 <= i < 2 implies #[trigger] bi_at_x(cb[i], xi) == cu[i] by {
        lemma_bi_add_at_x(ob[i], sb[i], xi);
        assert(coefs_eqm(state_at_x(ob, xi)[i], ou[i]));
        assert(coefs_eqm(state_at_x(sb, xi)[i], su[i]));
        lemma_add_congr(bi_at_x(ob[i], xi), ou[i], bi_at_x(sb[i], xi), su[i]);
    }
    lemma_bi_at_x_trim(bi_sub_spec(cb[0], bi_const(root.c0)), xi);
    lemma_bi_at_x_trim(bi_sub_spec(cb[1], bi_const(root.c1)), xi);
    lemma_bi_add_at_x(cb[0], bi_const(root.c0), xi);
    lemma_bi_add_at_x(cb[1], bi_const(root.c1), xi);
    lemma_const_at_x(root.c0, xi);
    lemma_const_at_x(root.c1, xi);
    lemma_coefs_eqm_of_eq(bi_at_x(cb[0], xi), cu[0]);
    lemma_coefs_eqm_of_eq(bi_at_x(cb[1], xi), cu[1]);
    lemma_add_congr(bi_at_x(cb[0], xi), cu[0], bi_at_x(bi_const(root.c0), xi), seq![root.c0]);
    lemma_add_congr(bi_at_x(cb[1], xi), cu[1], bi_at_x(bi_const(root.c1), xi), seq![root.c1]);
    lemma_add_trimmed(cu[0], seq![root.c0]);
    lemma_add_trimmed(cu[1], seq![root.c1]);
}

// ---------------------------------------------------------------------------
// Executable residual pair over F_p[X][Y]
// ---------------------------------------------------------------------------

/// The compression-mode hash over F_p[X][Y].
pub fn compression_hash_bi(pos: &Poseidon1, input: &[BiPoly]) -> (out: Vec<BiPoly>)
    requires
        pos.wf(),
        pos.alpha == 3,
        input.len() == 16,
        bi_states_within(bi_states(input@), 2, 2),
        pow(4, (pos.r_f + pos.r_p) as nat) <= 524288,
    ensures
        out.len() == 16,
        bi_states(out@) == bi_comp_spec(pos.rc_model(), pos.mds_model(), pos.r_f as int, pos.r_p as int, bi_states(input@)),
        bi_states_within(bi_states(out@), 2 * pow(4, (pos.r_f + pos.r_p) as nat), 2 * pow(4, (pos.r_f + pos.r_p) as nat)),
{
    let ghost b = 2 * pow(4, (pos.r_f + pos.r_p) as nat);
    proof {
        lemma_pow_positive(4, (pos.r_f + pos.r_p) as nat);
    }
    let mut out = permutation_bi(pos, input);
    let ghost o = bi_states(out@);
    let mut k: usize = 0;
    while k < 16
        invariant
            input.len() == 16,
            out.len() == 16,
            k <= 16,
            b >= 2,
            bi_states_within(bi_states(input@), 2, 2),
            bi_states_within(o, b, b),
            o.len() == 16,
            forall|j: int| k <= j < 16 ==> #[trigger] bi_view(out@[j]@) == o[j],
            forall|j: int| 0 <= j < k ==> #[trigger] bi_view(out@[j]@) == bi_add_spec(o[j], bi_view(input@[j]@)),
            forall|j: int| 0 <= j < k ==> bi_within(#[trigger] bi_view(out@[j]@), b) && out@[j]@.len() <= b,
        decreases 16 - k,
    {
        proof {
            assert(bi_states(input@)[k as int] == bi_view(input@[k as int]@));
            assert(bi_within(bi_view(input@[k as int]@), 2) && input@[k as int]@.len() <= 2);
            lemma_bi_within_weaken(bi_view(input@[k as int]@), 2, b);
            assert(bi_within(o[k as int], b) && o[k as int].len() <= b);
            lemma_bi_add_within(o[k as int], bi_view(input@[k as int]@), b);
        }
        let v = crate::bipoly::add(&out[k], &input[k]);
        proof {
            assert(bi_view(v@).len() == v@.len());
        }
        out.set(k, v);
        k += 1;
    }
    proof {
        assert(bi_states(out@) =~= bi_comp_spec(pos.rc_model(), pos.mds_model(), pos.r_f as int, pos.r_p as int, bi_states(input@)));
        assert forall|j: int| 0 <= j < 16 implies bi_within(#[trigger] bi_states(out@)[j], b) && bi_states(out@)[j].len() <= b by {
            assert(bi_states(out@)[j] == bi_view(out@[j]@));
        }
    }
    out
}

/// The constant `z`.
pub fn fp2_bi_const(z: Fp2) -> (r: Fp2Bi)
    ensures
        fp2b(r) == (bi_const(z.c0), bi_const(z.c1)),
{
    (crate::bipoly::constant(z.c0), crate::bipoly::constant(z.c1))
}

/// `a - b`.
pub fn fp2_bi_sub(a: &Fp2Bi, b: &Fp2Bi) -> (r: Fp2Bi)
    requires
        bi_within(fp2b(*a).0, 2),
        bi_within(fp2b(*a).1, 2),
        bi_within(fp2b(*b).0, 2),
        bi_within(fp2b(*b).1, 2),
    ensures
        fp2b(r) == bi_sub2_spec(fp2b(*a), fp2b(*b)),
{
    (crate::bipoly::sub(&a.0, &b.0), crate::bipoly::sub(&a.1, &b.1))
}

/// `-a`.
pub fn fp2_bi_neg(a: &Fp2Bi) -> (r: Fp2Bi)
    ensures
        fp2b(r) == bi_neg_spec(fp2b(*a)),
{
    (crate::bipoly::scalar(&a.0, P - 1), crate::bipoly::scalar(&a.1, P - 1))
}

/// `root * g`.
pub fn root_mul_bi(root: Fp2, g: &Fp2Bi) -> (r: Fp2Bi)
    requires
        fp2_ok(root),
        fp2b_ok(fp2b(*g)),
    ensures
        fp2b(r) == bi_rmul_spec(root, fp2b(*g)),
        fp2b_ok(fp2b(r)),
{
    let k3 = fp_mul(3, root.c1);
    let s0 = crate::bipoly::scalar(&g.0, root.c0);
    let s1 = crate::bipoly::scalar(&g.1, k3);
    let u0 = crate::bipoly::scalar(&g.1, root.c0);
    let u1 = crate::bipoly::scalar(&g.0, root.c1);
    proof {
        lemma_bi_scalar_within(bi_view(g.0@), root.c0, 2);
        lemma_bi_scalar_within(bi_view(g.1@), k3, 2);
        lemma_bi_scalar_within(bi_view(g.1@), root.c0, 2);
        lemma_bi_scalar_within(bi_view(g.0@), root.c1, 2);
        lemma_bi_add_within(bi_view(s0@), bi_view(s1@), 2);
        lemma_bi_add_within(bi_view(u0@), bi_view(u1@), 2);
    }
    (crate::bipoly::add(&s0, &s1), crate::bipoly::add(&u0, &u1))
}

/// The cofactor with coefficient `var_idx` equal to `X + Y s`.
pub fn cofactor_bi(base: &[Fp2; 7], var_idx: usize) -> (g: Vec<Fp2Bi>)
    requires
        var_idx < ZT_D,
    ensures
        g.len() == 7,
        forall|j: int| 0 <= j < 7 ==> #[trigger] fp2b(g[j]) == bi_cofactor_spec(base@, var_idx as int)[j],
        forall|j: int| 0 <= j < 7 ==> #[trigger] fp2b_ok(fp2b(g[j])),
{
    let mut g: Vec<Fp2Bi> = Vec::new();
    let mut j: usize = 0;
    while j < ZT_D
        invariant
            var_idx < 7,
            j <= 7,
            g.len() == j,
            forall|k: int| 0 <= k < j ==> #[trigger] fp2b(g[k]) == bi_cofactor_spec(base@, var_idx as int)[k],
            forall|k: int| 0 <= k < j ==> #[trigger] fp2b_ok(fp2b(g[k])),
        decreases 7 - j,
    {
        if j == var_idx {
            let vx = crate::bipoly::var_x();
            let vy = crate::bipoly::var_y();
            g.push((vx, vy));
        } else {
            let z = base[j];
            let c = fp2_bi_const(z);
            proof {
                lemma_const_within(z.c0);
                lemma_const_within(z.c1);
                lemma_bi_within_weaken(bi_const(z.c0), 1, 2);
                lemma_bi_within_weaken(bi_const(z.c1), 1, 2);
            }
            g.push(c);
        }
        j += 1;
    }
    g
}

/// The flat root-first state over F_p[X][Y].
pub fn root_first_state_bi(root: Fp2, g: &[Fp2Bi]) -> (out: Vec<BiPoly>)
    requires
        fp2_ok(root),
        g.len() == ZT_D,
        forall|j: int| 0 <= j < 7 ==> #[trigger] fp2b_ok(fp2b(g[j])),
    ensures
        out.len() == 16,
        bi_states(out@) == bi_rf_state_spec(root, g@.map_values(|h: Fp2Bi| fp2b(h))),
        bi_states_within(bi_states(out@), 2, 2),
{
    let ghost gs = g@.map_values(|h: Fp2Bi| fp2b(h));
    let mut coeffs: Vec<Fp2Bi> = Vec::new();
    proof {
        assert(gs[0] == fp2b(g[0]));
        assert(fp2b_ok(fp2b(g[0])));
    }
    let m0 = root_mul_bi(root, &g[0]);
    let n0 = fp2_bi_neg(&m0);
    proof {
        lemma_bi_scalar_within(fp2b(m0).0, (P - 1) as u32, 2);
        lemma_bi_scalar_within(fp2b(m0).1, (P - 1) as u32, 2);
    }
    coeffs.push(n0);
    let mut j: usize = 1;
    while j < ZT_D
        invariant
            fp2_ok(root),
            g.len() == 7,
            gs == g@.map_values(|h: Fp2Bi| fp2b(h)),
            forall|k: int| 0 <= k < 7 ==> #[trigger] fp2b_ok(fp2b(g[k])),
            1 <= j <= 7,
            coeffs.len() == j,
            forall|k: int| 0 <= k < j ==> #[trigger] fp2b(coeffs[k]) == bi_rf_coef_spec(root, gs, k),
            forall|k: int| 0 <= k < j ==> #[trigger] fp2b_ok(fp2b(coeffs[k])),
        decreases 7 - j,
    {
        proof {
            assert(gs[j as int] == fp2b(g[j as int]));
            assert(gs[j - 1] == fp2b(g[j - 1]));
            assert(fp2b_ok(fp2b(g[j as int])) && fp2b_ok(fp2b(g[j - 1])));
        }
        let m = root_mul_bi(root, &g[j]);
        let d = fp2_bi_sub(&g[j - 1], &m);
        proof {
            lemma_bi_add_within(fp2b(g[j - 1]).0, fp2b(m).0, 2);
            lemma_bi_add_within(fp2b(g[j - 1]).1, fp2b(m).1, 2);
        }
        coeffs.push(d);
        j += 1;
    }
    let last = (crate::bipoly::copy_bi(&g[ZT_D - 1].0), crate::bipoly::copy_bi(&g[ZT_D - 1].1));
    proof {
        assert(gs[6] == fp2b(g[6]));
        assert(fp2b(last) == fp2b(g[6]));
        assert(fp2b_ok(fp2b(g[6])));
    }
    coeffs.push(last);
    let mut flat: Vec<BiPoly> = Vec::new();
    let mut k: usize = 0;
    while k < 8
        invariant
            coeffs.len() == 8,
            forall|i: int| 0 <= i < 8 ==> #[trigger] fp2b(coeffs[i]) == bi_rf_coef_spec(root, gs, i),
            forall|i: int| 0 <= i < 8 ==> #[trigger] fp2b_ok(fp2b(coeffs[i])),
            k <= 8,
            flat.len() == 2 * k,
            forall|i: int| 0 <= i < 2 * k ==> #[trigger] bi_view(flat@[i]@) == bi_rf_state_spec(root, gs)[i],
            forall|i: int| 0 <= i < 2 * k ==> bi_within(#[trigger] bi_view(flat@[i]@), 2) && flat@[i]@.len() <= 2,
        decreases 8 - k,
    {
        let c0 = crate::bipoly::copy_bi(&coeffs[k].0);
        let c1 = crate::bipoly::copy_bi(&coeffs[k].1);
        proof {
            assert(fp2b(coeffs[k as int]) == bi_rf_coef_spec(root, gs, k as int));
            assert(fp2b_ok(fp2b(coeffs[k as int])));
            assert((2 * k) % 2 == 0 && (2 * k) / 2 == k);
            assert((2 * k + 1) % 2 == 1 && (2 * k + 1) / 2 == k);
        }
        proof {
            assert(bi_view(c0@).len() == c0@.len());
            assert(bi_view(c1@).len() == c1@.len());
        }
        flat.push(c0);
        flat.push(c1);
        k += 1;
    }
    proof {
        assert(bi_states(flat@) =~= bi_rf_state_spec(root, gs));
        assert forall|i: int| 0 <= i < 16 implies bi_within(#[trigger] bi_states(flat@)[i], 2) && bi_states(flat@)[i].len() <= 2 by {
            assert(bi_states(flat@)[i] == bi_view(flat@[i]@));
        }
    }
    flat
}

/// The residual pair `H(P) - root` for the coordinate line, built once over
/// F_p[X][Y].
pub fn residual_bi(pos: &Poseidon1, root: Fp2, base: &[Fp2; 7], var_idx: usize) -> (r: (BiPoly, BiPoly))
    requires
        pos.wf(),
        pos.alpha == 3,
        pow(4, (pos.r_f + pos.r_p) as nat) <= 524288,
        fp2_ok(root),
        var_idx < ZT_D,
    ensures
        (bi_view(r.0@), bi_view(r.1@)) == bi_residual_spec(pos, root, base@, var_idx as int),
        bi_within(bi_view(r.0@), 2 * pow(4, (pos.r_f + pos.r_p) as nat)),
        bi_within(bi_view(r.1@), 2 * pow(4, (pos.r_f + pos.r_p) as nat)),
        r.0.len() <= 2 * pow(4, (pos.r_f + pos.r_p) as nat),
        r.1.len() <= 2 * pow(4, (pos.r_f + pos.r_p) as nat),
{
    let g = cofactor_bi(base, var_idx);
    proof {
        assert(g@.map_values(|h: Fp2Bi| fp2b(h)) =~= bi_cofactor_spec(base@, var_idx as int));
    }
    let input = root_first_state_bi(root, &g);
    let out = compression_hash_bi(pos, &input);
    let ghost b = 2 * pow(4, (pos.r_f + pos.r_p) as nat);
    let k0 = crate::bipoly::constant(root.c0);
    let k1 = crate::bipoly::constant(root.c1);
    proof {
        assert(bi_view(k0@) =~= bi_const(root.c0));
        assert(bi_view(k1@) =~= bi_const(root.c1));
        assert(bi_states(input@) == bi_rf_state_spec(root, bi_cofactor_spec(base@, var_idx as int)));
        lemma_pow_positive(4, (pos.r_f + pos.r_p) as nat);
        assert(bi_states(out@)[0] == bi_view(out@[0]@) && bi_states(out@)[1] == bi_view(out@[1]@));
        assert(bi_within(bi_view(out@[0]@), b) && bi_within(bi_view(out@[1]@), b));
        lemma_const_within(root.c0);
        lemma_const_within(root.c1);
        lemma_bi_within_weaken(bi_const(root.c0), 1, b);
        lemma_bi_within_weaken(bi_const(root.c1), 1, b);
        lemma_bi_add_within(bi_view(out@[0]@), bi_const(root.c0), b);
        lemma_bi_add_within(bi_view(out@[1]@), bi_const(root.c1), b);
    }
    let f0 = crate::bipoly::sub(&out[0], &k0);
    let f1 = crate::bipoly::sub(&out[1], &k1);
    proof {
        lemma_bi_trim_facts(bi_view(f0@));
        lemma_bi_trim_facts(bi_view(f1@));
        assert forall|i: int| 0 <= i < bi_trim(bi_view(f0@)).len() implies reduced(#[trigger] bi_trim(bi_view(f0@))[i]) && bi_trim(bi_view(f0@))[i].len() <= b by {
            assert(bi_trim(bi_view(f0@))[i] == bi_view(f0@)[i]);
        }
        assert forall|i: int| 0 <= i < bi_trim(bi_view(f1@)).len() implies reduced(#[trigger] bi_trim(bi_view(f1@))[i]) && bi_trim(bi_view(f1@))[i].len() <= b by {
            assert(bi_trim(bi_view(f1@))[i] == bi_view(f1@)[i]);
        }
    }
    (crate::bipoly::trim(&f0), crate::bipoly::trim(&f1))
}

// ---------------------------------------------------------------------------
// The amortized run
// ---------------------------------------------------------------------------

/// `Res_Y` of the coordinate-line residual pair at `x = 1, ..., n`, for the
/// canonical instance.
pub open spec fn amortized_samples(rf: usize, rp: usize, root: Fp2, base: Seq<Fp2>, n: int) -> Seq<u32> {
    Seq::new(
        n as nat,
        |i: int|
            res_spec(
                canonical_line_residuals(rf, rp, root, base, 0, (i + 1) as u32).0,
                canonical_line_residuals(rf, rp, root, base, 0, (i + 1) as u32).1,
            ) as u32,
    )
}

/// The round counts for which the bivariate system is built.
pub open spec fn amortized_rounds(rf: usize, rp: usize) -> bool {
    &&& scout_rounds(rf, rp)
    &&& pow(4, (rf + rp) as nat) <= 524288
}

/// What the amortized run found.
#[derive(Clone, Copy, Debug)]
pub struct AmortizedReport {
    pub seed: u64,
    pub var_idx: usize,
    pub root: Fp2,
    pub base: [Fp2; 7],
    pub deg_r: i64,
    pub deg_r_expected: usize,
    pub deg_y: (i64, i64),
    pub deg_x: (i64, i64),
    pub n_points: usize,
    pub x_roots: usize,
    /// The interpolant takes every sampled value, and every sample equals
    /// the per-`x` resultant.
    pub matches_oracle: bool,
    pub witness: Option<(u32, u32)>,
}

/// Builds the coordinate-line residual pair once over F_p[X][Y],
/// specialises it at `x = 1, ..., 3^(2 rf + rp) + 1`, takes `Res_Y` at each
/// point, interpolates, checks every point against the per-`x` route, and
/// back-substitutes the roots of the interpolant.
#[verifier::rlimit(100)]
pub fn amortized_rootvar(rf: usize, rp: usize, seed_idx: usize) -> (r: AmortizedReport)
    requires
        amortized_rounds(rf, rp),
        scout_seed_spec(rf, rp, seed_idx) <= u64::MAX,
    ensures
        r.seed as int == scout_seed_spec(rf, rp, seed_idx),
        r.var_idx == 0,
        fp2_ok(r.root),
        fp2s_ok(r.base@),
        r.deg_r_expected == pow(3, (2 * rf + rp) as nat),
        r.n_points == r.deg_r_expected + 1,
        r.deg_y.0 as int == bi_trim(canonical_bi_residuals(rf, rp, r.root, r.base@, 0).0).len() - 1,
        r.deg_y.1 as int == bi_trim(canonical_bi_residuals(rf, rp, r.root, r.base@, 0).1).len() - 1,
        r.deg_x.0 as int == bi_deg_x(canonical_bi_residuals(rf, rp, r.root, r.base@, 0).0, canonical_bi_residuals(rf, rp, r.root, r.base@, 0).0.len() as int),
        r.deg_x.1 as int == bi_deg_x(canonical_bi_residuals(rf, rp, r.root, r.base@, 0).1, canonical_bi_residuals(rf, rp, r.root, r.base@, 0).1.len() as int),
        r.x_roots as int == crate::rootvar::root_count(elim_spec(grid_xs(r.n_points as int), amortized_samples(rf, rp, r.root, r.base@, r.n_points as int))),
        r.deg_r as int == degree(elim_spec(grid_xs(r.n_points as int), amortized_samples(rf, rp, r.root, r.base@, r.n_points as int))),
        r.matches_oracle == (forall|i: int| 0 <= i < r.n_points ==> #[trigger] (peval(
            elim_spec(grid_xs(r.n_points as int), amortized_samples(rf, rp, r.root, r.base@, r.n_points as int)), i + 1) % modulus())
            == amortized_samples(rf, rp, r.root, r.base@, r.n_points as int)[i]),
        r.witness matches Some((x, y)) ==> {
            &&& x < P
            &&& y < P
            &&& passes_canonical(rf, rp, flat_spec(root_first_spec(r.root, r.base@.update(0, Fp2 { c0: x, c1: y }))))
        },
        r.root == crate::rootvar::fixed_root_spec(r.seed),
        r.base@ == crate::rootvar::fixed_cofactor_spec(r.seed),
        r.witness matches Some((x, y)) ==> crate::rootvar::canonical_witness(
            rf, rp, r.root, (crate::rootvar::CofactorFamily::Line { base: r.base, var_idx: 0 }),
            elim_spec(grid_xs(r.n_points as int), amortized_samples(rf, rp, r.root, r.base@, r.n_points as int)), x, y),
        r.witness is None && degree(elim_spec(grid_xs(r.n_points as int), amortized_samples(rf, rp, r.root, r.base@, r.n_points as int))) >= 0
            ==> forall|x: u32, y: u32| !#[trigger] crate::rootvar::canonical_witness(
            rf, rp, r.root, (crate::rootvar::CofactorFamily::Line { base: r.base, var_idx: 0 }),
            elim_spec(grid_xs(r.n_points as int), amortized_samples(rf, rp, r.root, r.base@, r.n_points as int)), x, y),
{
    let var_idx: usize = 0;
    let seed = scout_seed(rf, rp, seed_idx);
    proof {
        lemma_pow3_fits(rf, rp);
    }
    let pos = Poseidon1::new_canonical(3, 16, rf, rp);
    proof {
        lemma_instance_ok(&pos, rf, rp);
    }
    let root = fixed_root(seed);
    let base = fixed_cofactor(seed);
    let deg_r = expected_degree(rf, rp);
    let n_pts = deg_r + 1;
    let (f0_bi, f1_bi) = residual_bi(&pos, root, &base, var_idx);
    let ghost bnd = 2 * pow(4, (rf + rp) as nat);
    proof {
        lemma_pow_positive(4, (rf + rp) as nat);
    }
    proof {
        assert forall|i: int| 0 <= i < f0_bi.len() implies #[trigger] f0_bi@[i].len() < i64::MAX by {
            assert(bi_view(f0_bi@)[i] == f0_bi@[i]@);
        }
        assert forall|i: int| 0 <= i < f1_bi.len() implies #[trigger] f1_bi@[i].len() < i64::MAX by {
            assert(bi_view(f1_bi@)[i] == f1_bi@[i]@);
        }
    }
    let dy0 = crate::bipoly::deg_y(&f0_bi);
    let dy1 = crate::bipoly::deg_y(&f1_bi);
    let dx0 = crate::bipoly::deg_x(&f0_bi);
    let dx1 = crate::bipoly::deg_x(&f1_bi);
    let xs = sample_grid(n_pts);
    let ys = sample_bi(&pos, rf, rp, root, &base, &f0_bi, &f1_bi, &xs, Ghost(bnd));
    proof {
        assert(xs@ =~= grid_xs(n_pts as int));
    }
    let r_poly = pl::interpolate(&xs, &ys);
    let deg_r_actual = pl::deg(&r_poly);
    let matches = check_against_oracle(&pos, rf, rp, root, &base, &xs, &ys, &r_poly);
    proof {
        assert(r_poly@ == elim_spec(grid_xs(n_pts as int), amortized_samples(rf, rp, root, base@, n_pts as int)));
    }
    let x_roots = pl::roots(&r_poly);
    let witness = find_witness(&pos, root, &base, &f0_bi, &f1_bi, &x_roots, Ghost(bnd));
    proof {
        assert(bi_residual_spec(&pos, root, base@, 0) == canonical_bi_residuals(rf, rp, root, base@, 0));
        assert(bi_view(f0_bi@).len() == f0_bi@.len());
        assert(bi_view(f1_bi@).len() == f1_bi@.len());
        lemma_amortized_outcome(&pos, rf, rp, root, base, f0_bi@, f1_bi@, r_poly@, x_roots@, witness);
    }
    AmortizedReport {
        seed,
        var_idx,
        root,
        base,
        deg_r: deg_r_actual,
        deg_r_expected: deg_r,
        deg_y: (dy0, dy1),
        deg_x: (dx0, dx1),
        n_points: n_pts,
        x_roots: x_roots.len(),
        matches_oracle: matches,
        witness,
    }
}

/// A witness of the specialised bivariate pair at a root `x` of the
/// eliminant is a canonical coordinate-line witness for the first coefficient.
proof fn lemma_amortized_witness(
    pos: &Poseidon1,
    rf: usize,
    rp: usize,
    root: Fp2,
    base: [Fp2; 7],
    f0_bi: Seq<pl::Poly>,
    f1_bi: Seq<pl::Poly>,
    e: Seq<u32>,
    x: u32,
    y: u32,
)
    requires
        pos.wf(),
        pos.rc_model() == canonical_rcs(3, rf as nat, rp as nat),
        pos.mds_model() == canonical_mds(),
        pos.r_f == rf,
        pos.r_p == rp,
        fp2_ok(root),
        fp2s_ok(base@),
        (bi_view(f0_bi), bi_view(f1_bi)) == bi_residual_spec(pos, root, base@, 0),
        x < P,
    ensures
        (witness_at(pos, root, base@, f0_bi, f1_bi, x, y) && peval(e, x as int) % modulus() == 0)
            == crate::rootvar::canonical_witness(rf, rp, root, (crate::rootvar::CofactorFamily::Line { base, var_idx: 0 }), e, x, y),
{
    reveal(crate::rootvar::canonical_witness);
    assert(Seq::new(f0_bi.len() as nat, |k: int| ((peval(f0_bi[k]@, x as int) % modulus()) as u32)) =~= bi_ev(bi_view(f0_bi), x as int));
    assert(Seq::new(f1_bi.len() as nat, |k: int| ((peval(f1_bi[k]@, x as int) % modulus()) as u32)) =~= bi_ev(bi_view(f1_bi), x as int));
    lemma_residual_bi_at_x(pos, root, base@, 0, x);
    assert(line_residuals(pos, root, base@, 0, x) == canonical_line_residuals(rf, rp, root, base@, 0, x));
    assert(bi_eval_at(f0_bi, x) == canonical_line_residuals(rf, rp, root, base@, 0, x).0);
    assert(bi_eval_at(f1_bi, x) == canonical_line_residuals(rf, rp, root, base@, 0, x).1);
    if y < P {
        crate::rootvar::lemma_line_specialises(base@, 0, x, y);
        vstd::arithmetic::div_mod::lemma_small_mod(x as nat, P as nat);
        vstd::arithmetic::div_mod::lemma_small_mod(y as nat, P as nat);
    }
}

/// What the back-substitution over the roots of the eliminant found, as
/// canonical coordinate-line witnesses.
proof fn lemma_amortized_outcome(
    pos: &Poseidon1,
    rf: usize,
    rp: usize,
    root: Fp2,
    base: [Fp2; 7],
    f0_bi: Seq<pl::Poly>,
    f1_bi: Seq<pl::Poly>,
    e: Seq<u32>,
    x_roots: Seq<u32>,
    witness: Option<(u32, u32)>,
)
    requires
        pos.wf(),
        pos.rc_model() == canonical_rcs(3, rf as nat, rp as nat),
        pos.mds_model() == canonical_mds(),
        pos.r_f == rf,
        pos.r_p == rp,
        fp2_ok(root),
        fp2s_ok(base@),
        (bi_view(f0_bi), bi_view(f1_bi)) == bi_residual_spec(pos, root, base@, 0),
        forall|i: int| 0 <= i < x_roots.len() ==> #[trigger] x_roots[i] < P,
        forall|i: int| 0 <= i < x_roots.len() ==> #[trigger] (peval(e, x_roots[i] as int) % modulus()) == 0,
        degree(e) >= 0 ==> forall|y: u32| y < P && peval(e, y as int) % modulus() == 0 ==> #[trigger] x_roots.contains(y),
        (witness is None) <==> (forall|i: int, y: u32| 0 <= i < x_roots.len() ==> !#[trigger] witness_at(pos, root, base@, f0_bi, f1_bi, x_roots[i], y)),
        witness matches Some((x, y)) ==> exists|i: int| 0 <= i < x_roots.len() && #[trigger] x_roots[i] == x
            && (forall|i2: int, y2: u32| 0 <= i2 < i ==> !#[trigger] witness_at(pos, root, base@, f0_bi, f1_bi, x_roots[i2], y2))
            && witness_at(pos, root, base@, f0_bi, f1_bi, x, y)
            && (forall|y2: u32| y2 < y ==> !#[trigger] witness_at(pos, root, base@, f0_bi, f1_bi, x, y2)),
    ensures
        witness matches Some((x, y)) ==> crate::rootvar::canonical_witness(
            rf, rp, root, (crate::rootvar::CofactorFamily::Line { base, var_idx: 0 }), e, x, y),
        witness is None && degree(e) >= 0 ==> forall|x: u32, y: u32| !#[trigger] crate::rootvar::canonical_witness(
            rf, rp, root, (crate::rootvar::CofactorFamily::Line { base, var_idx: 0 }), e, x, y),
{
    let fam = crate::rootvar::CofactorFamily::Line { base, var_idx: 0 };
    match witness {
        Some((x, y)) => {
            let i = choose|i: int| 0 <= i < x_roots.len() && #[trigger] x_roots[i] == x
                && (forall|i2: int, y2: u32| 0 <= i2 < i ==> !#[trigger] witness_at(pos, root, base@, f0_bi, f1_bi, x_roots[i2], y2))
                && witness_at(pos, root, base@, f0_bi, f1_bi, x, y)
                && (forall|y2: u32| y2 < y ==> !#[trigger] witness_at(pos, root, base@, f0_bi, f1_bi, x, y2));
            assert(x_roots[i] < P);
            assert((peval(e, x_roots[i] as int) % modulus()) == 0);
            lemma_amortized_witness(pos, rf, rp, root, base, f0_bi, f1_bi, e, x, y);
        },
        None => {
            if degree(e) >= 0 {
                assert forall|x: u32, y: u32| !#[trigger] crate::rootvar::canonical_witness(rf, rp, root, fam, e, x, y) by {
                    if crate::rootvar::canonical_witness(rf, rp, root, fam, e, x, y) {
                        reveal(crate::rootvar::canonical_witness);
                        assert(x_roots.contains(x));
                        let i = choose|i: int| 0 <= i < x_roots.len() && x_roots[i] == x;
                        lemma_amortized_witness(pos, rf, rp, root, base, f0_bi, f1_bi, e, x, y);
                        assert(!witness_at(pos, root, base@, f0_bi, f1_bi, x_roots[i], y));
                    }
                }
            }
        },
    }
}

/// `Res_Y` of the specialised bivariate residual pair at every grid point.
fn sample_bi(
    pos: &Poseidon1,
    rf: usize,
    rp: usize,
    root: Fp2,
    base: &[Fp2; 7],
    f0_bi: &[pl::Poly],
    f1_bi: &[pl::Poly],
    xs: &[u32],
    Ghost(bnd): Ghost<int>,
) -> (ys: Vec<u32>)
    requires
        pos.wf(),
        pos.rc_model() == canonical_rcs(3, rf as nat, rp as nat),
        pos.mds_model() == canonical_mds(),
        pos.r_f == rf,
        pos.r_p == rp,
        fp2_ok(root),
        fp2s_ok(base@),
        xs.len() < 8388601,
        forall|k: int| 0 <= k < xs.len() ==> #[trigger] xs[k] == k + 1,
        (bi_view(f0_bi@), bi_view(f1_bi@)) == bi_residual_spec(pos, root, base@, 0),
        bi_within(bi_view(f0_bi@), bnd),
        bi_within(bi_view(f1_bi@), bnd),
        f0_bi.len() <= bnd,
        f1_bi.len() <= bnd,
        bnd <= 1048576,
    ensures
        ys@ == amortized_samples(rf, rp, root, base@, xs.len() as int),
        reduced(ys@),
{
    let ghost samples = amortized_samples(rf, rp, root, base@, xs.len() as int);
    let mut ys: Vec<u32> = Vec::new();
    let mut i: usize = 0;
    while i < xs.len()
        invariant
            pos.wf(),
            pos.rc_model() == canonical_rcs(3, rf as nat, rp as nat),
            pos.mds_model() == canonical_mds(),
            pos.r_f == rf,
            pos.r_p == rp,
            fp2_ok(root),
            fp2s_ok(base@),
            xs.len() < 8388601,
            forall|k: int| 0 <= k < xs.len() ==> #[trigger] xs[k] == k + 1,
            (bi_view(f0_bi@), bi_view(f1_bi@)) == bi_residual_spec(pos, root, base@, 0),
            bi_within(bi_view(f0_bi@), bnd),
            bi_within(bi_view(f1_bi@), bnd),
            f0_bi.len() <= bnd,
            f1_bi.len() <= bnd,
            bnd <= 1048576,
            samples == amortized_samples(rf, rp, root, base@, xs.len() as int),
            i <= xs.len(),
            ys.len() == i,
            forall|k: int| 0 <= k < i ==> #[trigger] ys[k] == samples[k],
            forall|k: int| 0 <= k < i ==> #[trigger] ys@[k] < P,
        decreases xs.len() - i,
    {
        let x = xs[i];
        proof {
            assert(x == i + 1);
        }
        let f0 = crate::bipoly::eval_x(f0_bi, x);
        let f1 = crate::bipoly::eval_x(f1_bi, x);
        proof {
            assert(Seq::new(f0_bi.len() as nat, |k: int| ((peval(f0_bi@[k]@, x as int) % modulus()) as u32)) =~= bi_ev(bi_view(f0_bi@), x as int));
            assert(Seq::new(f1_bi.len() as nat, |k: int| ((peval(f1_bi@[k]@, x as int) % modulus()) as u32)) =~= bi_ev(bi_view(f1_bi@), x as int));
            lemma_residual_bi_at_x(pos, root, base@, 0, x);
            lemma_trim(bi_ev(bi_view(f0_bi@), x as int));
            lemma_trim(bi_ev(bi_view(f1_bi@), x as int));
            assert(line_residuals(pos, root, base@, 0, x) == canonical_line_residuals(rf, rp, root, base@, 0, x));
            assert(f0@ == canonical_line_residuals(rf, rp, root, base@, 0, x).0);
            assert(f1@ == canonical_line_residuals(rf, rp, root, base@, 0, x).1);
        }
        let v = pl::resultant(&f0, &f1);
        ys.push(v);
        i += 1;
    }
    proof {
        assert(ys@ =~= samples);
    }
    ys
}

/// Every grid point: the per-`x` resultant equals the sample, and the
/// interpolant takes the sample.
fn check_against_oracle(
    pos: &Poseidon1,
    rf: usize,
    rp: usize,
    root: Fp2,
    base: &[Fp2; 7],
    xs: &[u32],
    ys: &[u32],
    r_poly: &[u32],
) -> (matches: bool)
    requires
        scout_instance(pos),
        pos.rc_model() == canonical_rcs(3, rf as nat, rp as nat),
        pos.mds_model() == canonical_mds(),
        pos.r_f == rf,
        pos.r_p == rp,
        fp2_ok(root),
        fp2s_ok(base@),
        xs.len() == ys.len(),
        xs.len() < 8388601,
        forall|j: int| 0 <= j < xs.len() ==> #[trigger] xs[j] == j + 1,
        ys@ == amortized_samples(rf, rp, root, base@, xs.len() as int),
        reduced(r_poly@),
    ensures
        matches == (forall|j: int| 0 <= j < xs.len() ==> #[trigger] (peval(r_poly@, j + 1) % modulus()) == ys@[j]),
{
    let mut matches = true;
    let mut k: usize = 0;
    while k < xs.len()
        invariant
            scout_instance(pos),
            pos.rc_model() == canonical_rcs(3, rf as nat, rp as nat),
            pos.mds_model() == canonical_mds(),
            pos.r_f == rf,
            pos.r_p == rp,
            fp2_ok(root),
            fp2s_ok(base@),
            xs.len() == ys.len(),
            xs.len() < 8388601,
            forall|j: int| 0 <= j < xs.len() ==> #[trigger] xs[j] == j + 1,
            ys@ == amortized_samples(rf, rp, root, base@, xs.len() as int),
            reduced(r_poly@),
            k <= xs.len(),
            matches == (forall|j: int| 0 <= j < k ==> #[trigger] (peval(r_poly@, j + 1) % modulus()) == ys@[j]),
        decreases xs.len() - k,
    {
        let x = xs[k];
        proof {
            assert(x == k + 1);
        }
        let (f0, f1) = residual_polys_at_x(pos, root, base, 0, x);
        let oracle = pl::resultant(&f0, &f1);
        let interp = pl::eval(r_poly, x);
        proof {
            assert(line_residuals(pos, root, base@, 0, x) == canonical_line_residuals(rf, rp, root, base@, 0, x));
            assert(ys@[k as int] == amortized_samples(rf, rp, root, base@, xs.len() as int)[k as int]);
            assert(oracle == ys[k as int]);
        }
        if !(oracle == ys[k] && interp == ys[k]) {
            matches = false;
        }
        proof {
            if matches {
                assert forall|j: int| 0 <= j < k + 1 implies #[trigger] (peval(r_poly@, j + 1) % modulus()) == ys@[j] by {}
            }
        }
        k += 1;
    }
    matches
}

/// The univariate polynomial a bivariate one specialises to at `X = x`.
pub open spec fn bi_eval_at(f: Seq<pl::Poly>, x: u32) -> Seq<u32> {
    trim_spec(Seq::new(f.len() as nat, |i: int| ((peval(f[i]@, x as int) % modulus()) as u32)))
}

/// `y` is a common root of the specialised pair at `x` (not both zero), and
/// the candidate with first cofactor coefficient `x + y s` passes the zero test.
pub open spec fn witness_at(pos: &Poseidon1, root: Fp2, base: Seq<Fp2>, f0: Seq<pl::Poly>, f1: Seq<pl::Poly>, x: u32, y: u32) -> bool {
    &&& y < P
    &&& !(bi_eval_at(f0, x).len() == 0 && bi_eval_at(f1, x).len() == 0)
    &&& peval(bi_eval_at(f0, x), y as int) % modulus() == 0
    &&& peval(bi_eval_at(f1, x), y as int) % modulus() == 0
    &&& is_zero_residual(residual_spec(pos, flat_spec(root_first_spec(root, base.update(0, Fp2 { c0: x, c1: y })))))
}

/// The witnesses at one `x`, in increasing `y`; returns the least.
fn witness_at_x(
    pos: &Poseidon1,
    root: Fp2,
    base: &[Fp2; 7],
    f0_bi: &[pl::Poly],
    f1_bi: &[pl::Poly],
    x: u32,
    Ghost(bnd): Ghost<int>,
) -> (w: Option<u32>)
    requires
        pos.wf(),
        fp2_ok(root),
        fp2s_ok(base@),
        x < P,
        bi_within(bi_view(f0_bi@), bnd),
        bi_within(bi_view(f1_bi@), bnd),
        f0_bi.len() <= 8388608,
        f1_bi.len() <= 8388608,
    ensures
        (w is None) <==> (forall|y: u32| !#[trigger] witness_at(pos, root, base@, f0_bi@, f1_bi@, x, y)),
        w matches Some(y) ==> witness_at(pos, root, base@, f0_bi@, f1_bi@, x, y)
            && forall|y2: u32| y2 < y ==> !#[trigger] witness_at(pos, root, base@, f0_bi@, f1_bi@, x, y2),
{
    let f0 = crate::bipoly::eval_x(f0_bi, x);
    let f1 = crate::bipoly::eval_x(f1_bi, x);
    proof {
        lemma_trim(Seq::new(f0_bi.len() as nat, |k: int| ((peval(f0_bi@[k]@, x as int) % modulus()) as u32)));
        lemma_trim(Seq::new(f1_bi.len() as nat, |k: int| ((peval(f1_bi@[k]@, x as int) % modulus()) as u32)));
        crate::poly_spec::lemma_ops_canon(f0@, f1@, 0);
        assert(f0@ == bi_eval_at(f0_bi@, x));
        assert(f1@ == bi_eval_at(f1_bi@, x));
    }
    let g = pl::gcd(&f0, &f1);
    let ys_here = pl::roots(&g);
    proof {
        assert forall|y: u32| #![trigger witness_at(pos, root, base@, f0_bi@, f1_bi@, x, y)] witness_at(pos, root, base@, f0_bi@, f1_bi@, x, y) implies ys_here@.contains(y) by {
            crate::poly_divides::lemma_common_root(f0@, f1@, g@, y as int);
            if g.len() == 0 {
                assert(g@ =~= Seq::<u32>::empty());
                crate::poly_divides::lemma_divided_by_zero(f0@);
                crate::poly_divides::lemma_divided_by_zero(f1@);
                crate::poly_spec::lemma_trim(f0@);
                crate::poly_spec::lemma_trim(f1@);
            }
            crate::poly_spec::lemma_trim_canon(g@);
        }
        assert forall|j: int| 0 <= j < ys_here.len() implies
            peval(f0@, #[trigger] ys_here@[j] as int) % modulus() == 0
            && peval(f1@, ys_here@[j] as int) % modulus() == 0
            && !(f0@.len() == 0 && f1@.len() == 0) by {
            crate::poly_divides::lemma_root_of_multiple(g@, f0@, ys_here@[j] as int);
            crate::poly_divides::lemma_root_of_multiple(g@, f1@, ys_here@[j] as int);
            if f0@.len() == 0 && f1@.len() == 0 {
                assert(crate::poly_spec::euclid(trim_spec(f0@), trim_spec(f1@)) == trim_spec(f0@));
            }
        }
    }
    let mut k: usize = 0;
    while k < ys_here.len()
        invariant
            pos.wf(),
            fp2_ok(root),
            fp2s_ok(base@),
            x < P,
            k <= ys_here.len(),
            f0@ == bi_eval_at(f0_bi@, x),
            f1@ == bi_eval_at(f1_bi@, x),
            forall|j: int| 0 <= j < ys_here.len() ==> #[trigger] ys_here[j] < P,
            crate::poly::strictly_increasing(ys_here@),
            forall|y: u32| #![trigger witness_at(pos, root, base@, f0_bi@, f1_bi@, x, y)] witness_at(pos, root, base@, f0_bi@, f1_bi@, x, y) ==> ys_here@.contains(y),
            forall|j: int| 0 <= j < ys_here.len() ==>
                peval(f0@, #[trigger] ys_here@[j] as int) % modulus() == 0
                && peval(f1@, ys_here@[j] as int) % modulus() == 0
                && !(f0@.len() == 0 && f1@.len() == 0),
            forall|j: int| 0 <= j < k ==> !witness_at(pos, root, base@, f0_bi@, f1_bi@, x, #[trigger] ys_here@[j]),
        decreases ys_here.len() - k,
    {
        let y = ys_here[k];
        let cofactor = concrete_cofactor(base, 0, x, y);
        proof {
            assert(ys_here@[k as int] == y);
            lemma_small_mod(x as nat, P as nat);
            lemma_small_mod(y as nat, P as nat);
            assert forall|j: int| 0 <= j < 7 implies #[trigger] fp2_ok(cofactor@[j]) by {
                if j != 0 {
                    assert(fp2_ok(base@[j]));
                }
            }
        }
        let coeffs = crate::zerotest::root_first_coeffs(root, &cofactor);
        let p_hat = crate::zerotest::flatten_coeffs(&coeffs);
        if crate::zerotest::verify_zerotest(pos, &p_hat) {
            proof {
                assert(witness_at(pos, root, base@, f0_bi@, f1_bi@, x, y));
                assert forall|y2: u32| y2 < y implies !#[trigger] witness_at(pos, root, base@, f0_bi@, f1_bi@, x, y2) by {
                    if witness_at(pos, root, base@, f0_bi@, f1_bi@, x, y2) {
                        let j = choose|j: int| 0 <= j < ys_here.len() && ys_here@[j] == y2;
                        if j >= k {
                            assert(ys_here@[k as int] <= ys_here@[j]);
                        }
                    }
                }
            }
            return Some(y);
        }
        proof {
            assert(!witness_at(pos, root, base@, f0_bi@, f1_bi@, x, y));
        }
        k += 1;
    }
    proof {
        assert forall|y2: u32| !#[trigger] witness_at(pos, root, base@, f0_bi@, f1_bi@, x, y2) by {
            if witness_at(pos, root, base@, f0_bi@, f1_bi@, x, y2) {
                let j = choose|j: int| 0 <= j < ys_here.len() && ys_here@[j] == y2;
                assert(!witness_at(pos, root, base@, f0_bi@, f1_bi@, x, ys_here@[j]));
            }
        }
    }
    None
}

/// Back-substitutes every root `x` and every common root `y` of the
/// specialised residual pair; returns the first `(x, y)` (in the order of
/// `x_roots`, then of increasing `y`) whose candidate passes the zero test.
fn find_witness(
    pos: &Poseidon1,
    root: Fp2,
    base: &[Fp2; 7],
    f0_bi: &[pl::Poly],
    f1_bi: &[pl::Poly],
    x_roots: &[u32],
    Ghost(bnd): Ghost<int>,
) -> (w: Option<(u32, u32)>)
    requires
        pos.wf(),
        fp2_ok(root),
        fp2s_ok(base@),
        reduced(x_roots@),
        bi_within(bi_view(f0_bi@), bnd),
        bi_within(bi_view(f1_bi@), bnd),
        f0_bi.len() <= 8388608,
        f1_bi.len() <= 8388608,
    ensures
        w matches Some((x, y)) ==> x < P && y < P && is_zero_residual(residual_spec(pos, flat_spec(root_first_spec(root, base@.update(0, Fp2 { c0: x, c1: y }))))),
        (w is None) <==> (forall|i: int, y: u32| 0 <= i < x_roots.len() ==> !#[trigger] witness_at(pos, root, base@, f0_bi@, f1_bi@, x_roots@[i], y)),
        w matches Some((x, y)) ==> exists|i: int| 0 <= i < x_roots.len() && #[trigger] x_roots@[i] == x
            && (forall|i2: int, y2: u32| 0 <= i2 < i ==> !#[trigger] witness_at(pos, root, base@, f0_bi@, f1_bi@, x_roots@[i2], y2))
            && witness_at(pos, root, base@, f0_bi@, f1_bi@, x, y)
            && (forall|y2: u32| y2 < y ==> !#[trigger] witness_at(pos, root, base@, f0_bi@, f1_bi@, x, y2)),
{
    let mut i: usize = 0;
    while i < x_roots.len()
        invariant
            pos.wf(),
            fp2_ok(root),
            fp2s_ok(base@),
            bi_within(bi_view(f0_bi@), bnd),
            bi_within(bi_view(f1_bi@), bnd),
            f0_bi.len() <= 8388608,
            f1_bi.len() <= 8388608,
            i <= x_roots.len(),
            reduced(x_roots@),
            forall|i2: int, y2: u32| 0 <= i2 < i ==> !#[trigger] witness_at(pos, root, base@, f0_bi@, f1_bi@, x_roots@[i2], y2),
        decreases x_roots.len() - i,
    {
        let x = x_roots[i];
        proof {
            assert(x_roots@[i as int] < P);
        }
        match witness_at_x(pos, root, base, f0_bi, f1_bi, x, Ghost(bnd)) {
            Some(y) => {
                proof {
                    assert(x_roots@[i as int] == x);
                }
                return Some((x, y));
            },
            None => {
                proof {
                    assert forall|i2: int, y2: u32| 0 <= i2 < i + 1 implies !#[trigger] witness_at(pos, root, base@, f0_bi@, f1_bi@, x_roots@[i2], y2) by {
                        if i2 == i {
                            assert(x_roots@[i2] == x);
                        }
                    }
                }
            },
        }
        i += 1;
    }
    None
}

} // verus!
