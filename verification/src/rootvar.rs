//! Fixed-root / variable-cofactor search for the zero test.
//!
//! The root `r` of the zero-test polynomial `P(z) = (z - r) G(z)` is fixed,
//! and the cofactor `G` is made to depend on a variable `Y`: one coefficient
//! of `G` becomes `x + Y s` (a coordinate line), or every coefficient moves
//! along an affine plane. The two words of `H(P) - r` are then polynomials in
//! `Y`; their resultant, sampled at many `x` and interpolated, is a
//! polynomial in `x` whose roots are back-substituted and checked with the
//! zero-test verifier.
use vstd::arithmetic::div_mod::*;
use vstd::arithmetic::mul::*;
use vstd::arithmetic::power::*;
use vstd::prelude::*;

use crate::cico::{
    eval_state, lemma_add_len, lemma_scalar_len, lemma_symbolic_plain_perm_evaluates, permutation_poly, poly_perm,
    polys, polys_within,
};
use crate::field::modulus;
use crate::poly as pl;
use crate::poly_divides::{lemma_eqm_add, lemma_eqm_mul_left, lemma_eqm_sub};
use crate::poly::lemma_peval_trim;
use crate::poly_divides::{divides, lemma_root_of_multiple};
use crate::poly_eval::{lemma_peval_add, lemma_peval_scalar, lemma_peval_sub};
use crate::poly_ring::eqm;
use crate::poly_spec::{
    add_spec, canon, from_fn, lemma_trim, max_len, peval, reduced, scalar_spec, sub_coefs, sub_spec,
    trim_spec,
};
use crate::zerotest::{
    flat_spec, fp2_add_spec, fp2_mul_spec, fp2_neg_spec, fp2_ok, fp2_sub_spec, fp_mul, hash_point_model,
    is_zero_residual, lemma_root_first_wins, residual_model, residual_spec, root_first_spec, Fp2, SplitMix64, ZT_D,
};
use crate::poly_spec::res_spec;
use crate::poseidon_spec::{poseidon_perm, reduce_words};
use crate::{canonical_mds, canonical_rcs, compression_model, Poseidon1, P};

verus! {

/// A polynomial in `Y` over Fp2, as its two coordinate polynomials over F_p.
pub type Fp2Poly = (Vec<u32>, Vec<u32>);

// ---------------------------------------------------------------------------
// Models
// ---------------------------------------------------------------------------

/// The coordinate polynomials of an Fp2 polynomial.
pub open spec fn fp2p(g: Fp2Poly) -> (Seq<u32>, Seq<u32>) {
    (g.0@, g.1@)
}

/// Both coordinates reduced and of degree at most one.
pub open spec fn fp2p_ok(g: (Seq<u32>, Seq<u32>)) -> bool {
    &&& reduced(g.0)
    &&& reduced(g.1)
    &&& g.0.len() <= 2
    &&& g.1.len() <= 2
}

/// Seven reduced Fp2 elements.
pub open spec fn fp2s_ok(v: Seq<Fp2>) -> bool {
    forall|j: int| 0 <= j < 7 ==> #[trigger] fp2_ok(v[j])
}

/// The cofactor polynomials of a slice.
pub open spec fn cofactor_polys(g: Seq<Fp2Poly>) -> Seq<(Seq<u32>, Seq<u32>)> {
    g.map_values(|h: Fp2Poly| fp2p(h))
}

/// The Fp2 value of an Fp2 polynomial at `Y = y`.
pub open spec fn fp2p_at(g: (Seq<u32>, Seq<u32>), y: int) -> Fp2 {
    Fp2 { c0: (peval(g.0, y) % modulus()) as u32, c1: (peval(g.1, y) % modulus()) as u32 }
}

/// The cofactor `G` at `Y = y`.
pub open spec fn cofactor_at(g: Seq<(Seq<u32>, Seq<u32>)>, y: int) -> Seq<Fp2> {
    Seq::new(7, |j: int| fp2p_at(g[j], y))
}

/// `root * g` over Fp2[Y], with `x^2 = 3`.
pub open spec fn rmul_spec(root: Fp2, g: (Seq<u32>, Seq<u32>)) -> (Seq<u32>, Seq<u32>) {
    (
        add_spec(scalar_spec(g.0, root.c0 as int), scalar_spec(g.1, (3 * root.c1) % modulus())),
        add_spec(scalar_spec(g.1, root.c0 as int), scalar_spec(g.0, root.c1 as int)),
    )
}

/// `-g` over Fp2[Y].
pub open spec fn neg_spec(g: (Seq<u32>, Seq<u32>)) -> (Seq<u32>, Seq<u32>) {
    (scalar_spec(g.0, P - 1), scalar_spec(g.1, P - 1))
}

/// `a - b` over Fp2[Y].
pub open spec fn fp2p_sub_spec(a: (Seq<u32>, Seq<u32>), b: (Seq<u32>, Seq<u32>)) -> (Seq<u32>, Seq<u32>) {
    (sub_spec(a.0, b.0), sub_spec(a.1, b.1))
}

/// Coefficient `j` of `(z - root) G(z)` over Fp2[Y].
pub open spec fn rf_coef_spec(root: Fp2, g: Seq<(Seq<u32>, Seq<u32>)>, j: int) -> (Seq<u32>, Seq<u32>) {
    if j == 0 {
        neg_spec(rmul_spec(root, g[0]))
    } else if j < 7 {
        fp2p_sub_spec(g[j - 1], rmul_spec(root, g[j]))
    } else {
        g[6]
    }
}

/// The flat 16-word state of `(z - root) G(z)` over F_p[Y].
pub open spec fn rf_state_spec(root: Fp2, g: Seq<(Seq<u32>, Seq<u32>)>) -> Seq<Seq<u32>> {
    Seq::new(16, |i: int| if i % 2 == 0 { rf_coef_spec(root, g, i / 2).0 } else { rf_coef_spec(root, g, i / 2).1 })
}

// ---------------------------------------------------------------------------
// Fp2 polynomials
// ---------------------------------------------------------------------------

proof fn lemma_sub_len(a: Seq<u32>, b: Seq<u32>)
    ensures
        sub_spec(a, b).len() <= max_len(a, b),
        canon(sub_spec(a, b)),
{
    lemma_trim(from_fn(max_len(a, b), sub_coefs(a, b)));
    crate::poly_spec::lemma_ops_canon(a, b, 0);
}

/// The constant Fp2 polynomial `z`.
pub fn fp2_poly_const(z: Fp2) -> (r: Fp2Poly)
    ensures
        r.0@ == trim_spec(seq![z.c0]),
        r.1@ == trim_spec(seq![z.c1]),
{
    let mut a: Vec<u32> = Vec::new();
    a.push(z.c0);
    let mut b: Vec<u32> = Vec::new();
    b.push(z.c1);
    proof {
        assert(a@ =~= seq![z.c0]);
        assert(b@ =~= seq![z.c1]);
    }
    (pl::trim(&a), pl::trim(&b))
}

/// `k z` in Fp2.
pub fn fp2_scale(z: Fp2, k: u32) -> (r: Fp2)
    ensures
        r == (Fp2 { c0: ((z.c0 as int * k as int) % modulus()) as u32, c1: ((z.c1 as int * k as int) % modulus()) as u32 }),
        fp2_ok(r),
{
    let a = fp_mul(z.c0, k);
    let b = fp_mul(z.c1, k);
    proof {
        lemma_small_mod(a as nat, P as nat);
        lemma_small_mod(b as nat, P as nat);
    }
    Fp2::new(a, b)
}

/// `a - b` over Fp2[Y].
pub fn fp2_poly_sub(a: &Fp2Poly, b: &Fp2Poly) -> (r: Fp2Poly)
    requires
        reduced(a.0@),
        reduced(a.1@),
        reduced(b.0@),
        reduced(b.1@),
    ensures
        fp2p(r) == fp2p_sub_spec(fp2p(*a), fp2p(*b)),
{
    (pl::sub(&a.0, &b.0), pl::sub(&a.1, &b.1))
}

/// `-a` over Fp2[Y].
pub fn fp2_poly_neg(a: &Fp2Poly) -> (r: Fp2Poly)
    ensures
        fp2p(r) == neg_spec(fp2p(*a)),
{
    (pl::scalar(&a.0, P - 1), pl::scalar(&a.1, P - 1))
}

/// `root * g` over Fp2[Y].
pub fn root_mul_poly(root: Fp2, g: &Fp2Poly) -> (r: Fp2Poly)
    requires
        fp2_ok(root),
    ensures
        fp2p(r) == rmul_spec(root, fp2p(*g)),
{
    let t = fp_mul(3, root.c1);
    let s0 = pl::scalar(&g.0, root.c0);
    let s1 = pl::scalar(&g.1, t);
    proof {
        lemma_scalar_len(g.0@, root.c0 as int);
        lemma_scalar_len(g.1@, t as int);
    }
    let c0 = pl::add(&s0, &s1);
    let u0 = pl::scalar(&g.1, root.c0);
    let u1 = pl::scalar(&g.0, root.c1);
    proof {
        lemma_scalar_len(g.1@, root.c0 as int);
        lemma_scalar_len(g.0@, root.c1 as int);
    }
    let c1 = pl::add(&u0, &u1);
    (c0, c1)
}

/// Degree-at-most-one Fp2 polynomials stay so under these operations.
proof fn lemma_rmul_ok(root: Fp2, g: (Seq<u32>, Seq<u32>))
    requires
        fp2p_ok(g),
    ensures
        fp2p_ok(rmul_spec(root, g)),
        fp2p_ok(neg_spec(rmul_spec(root, g))),
{
    lemma_scalar_len(g.0, root.c0 as int);
    lemma_scalar_len(g.1, (3 * root.c1) % modulus());
    lemma_scalar_len(g.1, root.c0 as int);
    lemma_scalar_len(g.0, root.c1 as int);
    let r = rmul_spec(root, g);
    lemma_add_len(scalar_spec(g.0, root.c0 as int), scalar_spec(g.1, (3 * root.c1) % modulus()));
    lemma_add_len(scalar_spec(g.1, root.c0 as int), scalar_spec(g.0, root.c1 as int));
    lemma_scalar_len(r.0, P - 1);
    lemma_scalar_len(r.1, P - 1);
}

proof fn lemma_sub_ok(a: (Seq<u32>, Seq<u32>), b: (Seq<u32>, Seq<u32>))
    requires
        fp2p_ok(a),
        fp2p_ok(b),
    ensures
        fp2p_ok(fp2p_sub_spec(a, b)),
{
    lemma_sub_len(a.0, b.0);
    lemma_sub_len(a.1, b.1);
}

/// The flat 16-word state of `(z - root) G(z)`, where the seven coefficients
/// of `G` are polynomials in `Y`.
pub fn root_first_state_from_cofactor_polys(root: Fp2, g: &[Fp2Poly]) -> (out: Vec<pl::Poly>)
    requires
        fp2_ok(root),
        g.len() == ZT_D,
        forall|j: int| 0 <= j < 7 ==> #[trigger] fp2p_ok(fp2p(g[j])),
    ensures
        out.len() == 16,
        polys(out@) == rf_state_spec(root, cofactor_polys(g@)),
        polys_within(polys(out@), 2),
{
    let ghost gs = cofactor_polys(g@);
    let mut coeffs: Vec<Fp2Poly> = Vec::new();
    proof {
        assert(gs[0] == fp2p(g[0]));
        lemma_rmul_ok(root, gs[0]);
    }
    coeffs.push(fp2_poly_neg(&root_mul_poly(root, &g[0])));
    let mut j: usize = 1;
    while j < ZT_D
        invariant
            fp2_ok(root),
            g.len() == 7,
            gs == cofactor_polys(g@),
            forall|k: int| 0 <= k < 7 ==> #[trigger] fp2p_ok(fp2p(g[k])),
            1 <= j <= 7,
            coeffs.len() == j,
            forall|k: int| 0 <= k < j ==> #[trigger] fp2p(coeffs[k]) == rf_coef_spec(root, gs, k),
            forall|k: int| 0 <= k < j ==> #[trigger] fp2p_ok(fp2p(coeffs[k])),
        decreases 7 - j,
    {
        let m = root_mul_poly(root, &g[j]);
        proof {
            assert(gs[j as int] == fp2p(g[j as int]));
            assert(gs[j - 1] == fp2p(g[j - 1]));
            lemma_rmul_ok(root, gs[j as int]);
            lemma_sub_ok(gs[j - 1], rmul_spec(root, gs[j as int]));
            assert(fp2p_ok(fp2p(g[j - 1])));
            assert(fp2p_ok(fp2p(m)));
        }
        coeffs.push(fp2_poly_sub(&g[j - 1], &m));
        j += 1;
    }
    let last = (g[ZT_D - 1].0.clone(), g[ZT_D - 1].1.clone());
    proof {
        assert(gs[6] == fp2p(g[6]));
        assert(fp2p(last) == fp2p(g[6]));
    }
    coeffs.push(last);
    let mut flat: Vec<pl::Poly> = Vec::new();
    let mut k: usize = 0;
    while k < 8
        invariant
            coeffs.len() == 8,
            forall|i: int| 0 <= i < 8 ==> #[trigger] fp2p(coeffs[i]) == rf_coef_spec(root, gs, i),
            forall|i: int| 0 <= i < 8 ==> #[trigger] fp2p_ok(fp2p(coeffs[i])),
            k <= 8,
            flat.len() == 2 * k,
            forall|i: int| 0 <= i < 2 * k ==> #[trigger] flat[i]@ == rf_state_spec(root, gs)[i],
            forall|i: int| 0 <= i < 2 * k ==> reduced(#[trigger] flat[i]@) && flat[i]@.len() <= 2,
        decreases 8 - k,
    {
        let c0 = coeffs[k].0.clone();
        let c1 = coeffs[k].1.clone();
        proof {
            assert(fp2p(coeffs[k as int]) == rf_coef_spec(root, gs, k as int));
            assert(c0@ =~= coeffs[k as int].0@);
            assert(c1@ =~= coeffs[k as int].1@);
            assert(c0@ == rf_coef_spec(root, gs, k as int).0);
            assert(c1@ == rf_coef_spec(root, gs, k as int).1);
            assert((2 * k) % 2 == 0 && (2 * k) / 2 == k);
            assert((2 * k + 1) % 2 == 1 && (2 * k + 1) / 2 == k);
            assert(fp2p_ok(fp2p(coeffs[k as int])));
        }
        flat.push(c0);
        flat.push(c1);
        k += 1;
    }
    proof {
        assert(polys(flat@) =~= rf_state_spec(root, gs));
        assert forall|i: int| 0 <= i < polys(flat@).len() implies reduced(#[trigger] polys(flat@)[i]) && polys(flat@)[i].len() <= 2 by {
            assert(polys(flat@)[i] == flat[i]@);
        }
    }
    flat
}

// ---------------------------------------------------------------------------
// Specialising Y
// ---------------------------------------------------------------------------

pub(crate) proof fn lemma_eqm_mul2(a: int, b: int, c: int, d: int)
    requires
        eqm(a, c),
        eqm(b, d),
    ensures
        eqm(a * b, c * d),
{
    lemma_mul_mod_noop(a, b, modulus());
    lemma_mul_mod_noop(c, d, modulus());
}

pub(crate) proof fn lemma_eqm_mod(a: int)
    ensures
        eqm(a % modulus(), a),
{
    lemma_mod_twice(a, modulus());
}

/// Multiplying by `P - 1` negates.
pub(crate) proof fn lemma_eqm_neg_one(a: int)
    ensures
        eqm((P - 1) * a, -a),
{
    let p = modulus();
    lemma_mul_is_distributive_sub_other_way(a, p, 1);
    lemma_mul_is_commutative(a, p);
    lemma_mul_is_commutative(a, p - 1);
    lemma_mod_multiples_vanish(a, -a, p);
}

/// Evaluating `root * g` at `y`.
proof fn lemma_rmul_eval(root: Fp2, g: (Seq<u32>, Seq<u32>), y: int)
    ensures
        eqm(peval(rmul_spec(root, g).0, y), root.c0 * peval(g.0, y) + 3 * (root.c1 * peval(g.1, y))),
        eqm(peval(rmul_spec(root, g).1, y), root.c0 * peval(g.1, y) + root.c1 * peval(g.0, y)),
{
    let p = modulus();
    let v0 = peval(g.0, y);
    let v1 = peval(g.1, y);
    let k3 = (3 * root.c1) % p;
    let s1 = scalar_spec(g.0, root.c0 as int);
    let s2 = scalar_spec(g.1, k3);
    lemma_peval_add(s1, s2, y);
    lemma_peval_scalar(g.0, root.c0 as int, y);
    lemma_peval_scalar(g.1, k3, y);
    lemma_mul_mod_noop_left(3 * root.c1, v1, p);
    lemma_mul_is_associative(3, root.c1 as int, v1);
    lemma_eqm_add(peval(s1, y), root.c0 * v0, peval(s2, y), 3 * (root.c1 * v1));
    let u1 = scalar_spec(g.1, root.c0 as int);
    let u2 = scalar_spec(g.0, root.c1 as int);
    lemma_peval_add(u1, u2, y);
    lemma_peval_scalar(g.1, root.c0 as int, y);
    lemma_peval_scalar(g.0, root.c1 as int, y);
    lemma_eqm_add(peval(u1, y), root.c0 * v1, peval(u2, y), root.c1 * v0);
}

/// The coordinates of `a * (v0 + v1 x)` for unreduced `v0, v1`.
pub(crate) proof fn lemma_fp2_mul_at(a: Fp2, v0: int, v1: int)
    ensures
        eqm(fp2_mul_spec(a, Fp2 { c0: (v0 % modulus()) as u32, c1: (v1 % modulus()) as u32 }).c0 as int, a.c0 * v0 + 3 * (a.c1 * v1)),
        eqm(fp2_mul_spec(a, Fp2 { c0: (v0 % modulus()) as u32, c1: (v1 % modulus()) as u32 }).c1 as int, a.c0 * v1 + a.c1 * v0),
{
    let p = modulus();
    let b = Fp2 { c0: (v0 % p) as u32, c1: (v1 % p) as u32 };
    assert(b.c0 as int == v0 % p && b.c1 as int == v1 % p);
    lemma_eqm_mod(v0);
    lemma_eqm_mod(v1);
    lemma_eqm_mul2(a.c0 as int, b.c0 as int, a.c0 as int, v0);
    lemma_eqm_mul2(a.c1 as int, b.c1 as int, a.c1 as int, v1);
    lemma_eqm_mul_left(3, a.c1 * b.c1, a.c1 * v1);
    lemma_eqm_add(a.c0 * b.c0, a.c0 * v0, 3 * (a.c1 * b.c1), 3 * (a.c1 * v1));
    lemma_eqm_mod(a.c0 * b.c0 + 3 * (a.c1 * b.c1));
    lemma_eqm_mul2(a.c0 as int, b.c1 as int, a.c0 as int, v1);
    lemma_eqm_mul2(a.c1 as int, b.c0 as int, a.c1 as int, v0);
    lemma_eqm_add(a.c0 * b.c1, a.c0 * v1, a.c1 * b.c0, a.c1 * v0);
    lemma_eqm_mod(a.c0 * b.c1 + a.c1 * b.c0);
}

/// Coefficient `j` of the symbolic state, evaluated at `y`, is the
/// coefficient of the concrete root-first polynomial.
proof fn lemma_coef_specialises(root: Fp2, g: Seq<(Seq<u32>, Seq<u32>)>, y: int, j: int)
    requires
        fp2_ok(root),
        g.len() == 7,
        0 <= j < 8,
    ensures
        peval(rf_coef_spec(root, g, j).0, y) % modulus() == root_first_spec(root, cofactor_at(g, y))[j].c0 as int,
        peval(rf_coef_spec(root, g, j).1, y) % modulus() == root_first_spec(root, cofactor_at(g, y))[j].c1 as int,
{
    let p = modulus();
    let gy = cofactor_at(g, y);
    let cs = root_first_spec(root, gy);
    if j == 0 {
        let r = rmul_spec(root, g[0]);
        let v0 = peval(g[0].0, y);
        let v1 = peval(g[0].1, y);
        lemma_rmul_eval(root, g[0], y);
        lemma_peval_scalar(r.0, P - 1, y);
        lemma_peval_scalar(r.1, P - 1, y);
        lemma_eqm_neg_one(peval(r.0, y));
        lemma_eqm_neg_one(peval(r.1, y));
        let n = fp2_neg_spec(root);
        assert(n.c0 as int == (0 - root.c0) % p && n.c1 as int == (0 - root.c1) % p);
        assert(gy[0] == (Fp2 { c0: (v0 % p) as u32, c1: (v1 % p) as u32 }));
        lemma_fp2_mul_at(n, v0, v1);
        lemma_eqm_mod(-(root.c0 as int));
        lemma_eqm_mod(-(root.c1 as int));
        lemma_eqm_mul2(n.c0 as int, v0, -(root.c0 as int), v0);
        lemma_eqm_mul2(n.c1 as int, v1, -(root.c1 as int), v1);
        lemma_eqm_mul2(n.c0 as int, v1, -(root.c0 as int), v1);
        lemma_eqm_mul2(n.c1 as int, v0, -(root.c1 as int), v0);
        lemma_mul_unary_negation(root.c0 as int, v0);
        lemma_mul_unary_negation(root.c1 as int, v1);
        lemma_mul_unary_negation(root.c0 as int, v1);
        lemma_mul_unary_negation(root.c1 as int, v0);
        lemma_eqm_mul_left(3, n.c1 * v1, -(root.c1 * v1));
        lemma_eqm_add(n.c0 * v0, -(root.c0 * v0), 3 * (n.c1 * v1), 3 * (-(root.c1 * v1)));
        lemma_eqm_add(n.c0 * v1, -(root.c0 * v1), n.c1 * v0, -(root.c1 * v0));
        lemma_eqm_mul_left(-1, peval(r.0, y), root.c0 * v0 + 3 * (root.c1 * v1));
        lemma_eqm_mul_left(-1, peval(r.1, y), root.c0 * v1 + root.c1 * v0);
        assert(fp2_ok(cs[0]));
    } else if j < 7 {
        let a = g[j - 1];
        let r = rmul_spec(root, g[j]);
        let v0 = peval(g[j].0, y);
        let v1 = peval(g[j].1, y);
        lemma_rmul_eval(root, g[j], y);
        lemma_peval_sub(a.0, r.0, y);
        lemma_peval_sub(a.1, r.1, y);
        assert(gy[j] == (Fp2 { c0: (v0 % p) as u32, c1: (v1 % p) as u32 }));
        let m = fp2_mul_spec(root, gy[j]);
        lemma_fp2_mul_at(root, v0, v1);
        let a0 = peval(a.0, y);
        let a1 = peval(a.1, y);
        assert(gy[j - 1].c0 as int == a0 % p && gy[j - 1].c1 as int == a1 % p);
        lemma_eqm_mod(a0);
        lemma_eqm_mod(a1);
        lemma_eqm_sub(gy[j - 1].c0 as int, a0, m.c0 as int, peval(r.0, y));
        lemma_eqm_sub(gy[j - 1].c1 as int, a1, m.c1 as int, peval(r.1, y));
        lemma_eqm_mod(gy[j - 1].c0 - m.c0);
        lemma_eqm_mod(gy[j - 1].c1 - m.c1);
        assert(fp2_ok(cs[j]));
    } else {
        assert(gy[6] == fp2p_at(g[6], y));
    }
}

/// Evaluating the symbolic root-first state at `Y = y` gives the flat
/// vector of `(z - root) G(z)` for the cofactor `G` taken at `y`.
pub proof fn lemma_state_specialises(root: Fp2, g: Seq<(Seq<u32>, Seq<u32>)>, y: int)
    requires
        fp2_ok(root),
        g.len() == 7,
    ensures
        forall|i: int| 0 <= i < 16 ==> #[trigger] (peval(rf_state_spec(root, g)[i], y) % modulus())
            == flat_spec(root_first_spec(root, cofactor_at(g, y)))[i] as int,
{
    assert forall|i: int| 0 <= i < 16 implies #[trigger] (peval(rf_state_spec(root, g)[i], y) % modulus())
        == flat_spec(root_first_spec(root, cofactor_at(g, y)))[i] as int by {
        lemma_coef_specialises(root, g, y, i / 2);
    }
}

// ---------------------------------------------------------------------------
// Cofactor families
// ---------------------------------------------------------------------------

/// The scout's seed for a round count and seed index.
pub open spec fn scout_seed_spec(rf: usize, rp: usize, seed_idx: usize) -> int {
    0xA17E_0000 + rf * 0x100_0000 + rp * 0x1_0000 + seed_idx
}

/// The seed of a scout case.
pub fn scout_seed(rf: usize, rp: usize, seed_idx: usize) -> (s: u64)
    requires
        scout_seed_spec(rf, rp, seed_idx) <= u64::MAX,
    ensures
        s as int == scout_seed_spec(rf, rp, seed_idx),
{
    let rf64 = rf as u64;
    let rp64 = rp as u64;
    assert(rf64 < 0x100_0000_0000);
    assert(rp64 < 0x1_0000_0000_0000);
    let a: u64 = rf64 << 24u64;
    let b: u64 = rp64 << 16u64;
    assert(a == rf64 * 0x100_0000) by (bit_vector)
        requires
            a == rf64 << 24u64,
            rf64 < 0x100_0000_0000,
    ;
    assert(b == rp64 * 0x1_0000) by (bit_vector)
        requires
            b == rp64 << 16u64,
            rp64 < 0x1_0000_0000_0000,
    ;
    0xA17E_0000 + a + b + seed_idx as u64
}

/// The fixed root of a seed: the first nonzero element of the stream
/// seeded with `seed ^ 0xA11C_E000`.
pub open spec fn fixed_root_spec(seed: u64) -> Fp2 {
    crate::zerotest::nz_elem(seed ^ 0xA11C_E000u64, 0)
}

/// The base cofactor of a seed: the first seven nonzero elements of its stream.
pub open spec fn fixed_cofactor_spec(seed: u64) -> Seq<Fp2> {
    Seq::new(7, |j: int| crate::zerotest::nz_elem(seed, j as nat))
}

/// The fixed root of a seed: a nonzero element drawn from it.
pub fn fixed_root(seed: u64) -> (r: Fp2)
    ensures
        fp2_ok(r),
        !(r.c0 == 0 && r.c1 == 0),
        r == crate::zerotest::nz_elem(seed ^ 0xA11C_E000u64, 0),
        r == fixed_root_spec(seed),
{
    let mut rng = SplitMix64::new(seed ^ 0xA11C_E000);
    rng.fp2_nonzero()
}

/// The base cofactor of a seed: seven nonzero elements drawn from it.
pub fn fixed_cofactor(seed: u64) -> (g: [Fp2; 7])
    ensures
        forall|j: int| 0 <= j < 7 ==> #[trigger] fp2_ok(g@[j]) && !(g@[j].c0 == 0 && g@[j].c1 == 0),
        forall|j: int| 0 <= j < 7 ==> #[trigger] g@[j] == crate::zerotest::nz_elem(seed, j as nat),
        g@ == fixed_cofactor_spec(seed),
{
    let mut rng = SplitMix64::new(seed);
    let mut g = [Fp2 { c0: 0, c1: 0 }; 7];
    let mut j: usize = 0;
    while j < ZT_D
        invariant
            j <= 7,
            rng.0 == crate::zerotest::nz_state(seed, j as nat),
            forall|k: int| 0 <= k < j ==> #[trigger] fp2_ok(g@[k]) && !(g@[k].c0 == 0 && g@[k].c1 == 0),
            forall|k: int| 0 <= k < j ==> #[trigger] g@[k] == crate::zerotest::nz_elem(seed, k as nat),
        decreases 7 - j,
    {
        let v = rng.fp2_nonzero();
        g[j] = v;
        proof {
            assert(g@[j as int] == v);
            assert forall|k: int| 0 <= k < j + 1 implies #[trigger] fp2_ok(g@[k]) && !(g@[k].c0 == 0 && g@[k].c1 == 0) by {
                if k < j {
                    assert(fp2_ok(g@[k]));
                }
            }
        }
        j += 1;
    }
    proof {
        assert(g@ =~= fixed_cofactor_spec(seed));
    }
    g
}

/// The directions of `X` in affine plane `plane_idx`: the even-numbered
/// nonzero elements of the plane's stream.
pub open spec fn plane_x_dirs_spec(seed: u64, plane_idx: usize) -> Seq<Fp2> {
    Seq::new(7, |j: int| crate::zerotest::nz_elem(plane_seed(seed, plane_idx), (2 * j) as nat))
}

/// The directions of `Y` in affine plane `plane_idx`: the odd-numbered
/// nonzero elements of the plane's stream.
pub open spec fn plane_y_dirs_spec(seed: u64, plane_idx: usize) -> Seq<Fp2> {
    Seq::new(7, |j: int| crate::zerotest::nz_elem(plane_seed(seed, plane_idx), (2 * j + 1) as nat))
}

/// The stream seed of affine plane `plane_idx` of a seed.
pub open spec fn plane_seed(seed: u64, plane_idx: usize) -> u64 {
    seed ^ 0xC0FA_CE00_D15C_A11E_u64 ^ (((plane_idx as nat) * 0x9E37_79B9nat) % 0x1_0000_0000_0000_0000nat) as u64
}

/// The directions of affine plane `plane_idx` of a seed.
pub fn plane_dirs(seed: u64, plane_idx: usize) -> (d: ([Fp2; 7], [Fp2; 7]))
    ensures
        fp2s_ok(d.0@),
        fp2s_ok(d.1@),
        forall|j: int| 0 <= j < 7 ==> #[trigger] d.0@[j] == crate::zerotest::nz_elem(plane_seed(seed, plane_idx), (2 * j) as nat),
        forall|j: int| 0 <= j < 7 ==> #[trigger] d.1@[j] == crate::zerotest::nz_elem(plane_seed(seed, plane_idx), (2 * j + 1) as nat),
{
    let mix = (plane_idx as u64).wrapping_mul(0x9E37_79B9);
    let mut rng = SplitMix64::new(seed ^ 0xC0FA_CE00_D15C_A11E_u64 ^ mix);
    let mut x_dirs = [Fp2 { c0: 0, c1: 0 }; 7];
    let mut y_dirs = [Fp2 { c0: 0, c1: 0 }; 7];
    let mut j: usize = 0;
    let ghost s0 = plane_seed(seed, plane_idx);
    assert(rng.0 == s0);
    while j < ZT_D
        invariant
            j <= 7,
            rng.0 == crate::zerotest::nz_state(s0, (2 * j) as nat),
            s0 == plane_seed(seed, plane_idx),
            forall|k: int| 0 <= k < j ==> #[trigger] fp2_ok(x_dirs@[k]),
            forall|k: int| 0 <= k < j ==> #[trigger] fp2_ok(y_dirs@[k]),
            forall|k: int| 0 <= k < j ==> #[trigger] x_dirs@[k] == crate::zerotest::nz_elem(s0, (2 * k) as nat),
            forall|k: int| 0 <= k < j ==> #[trigger] y_dirs@[k] == crate::zerotest::nz_elem(s0, (2 * k + 1) as nat),
        decreases 7 - j,
    {
        let ghost before = rng.0;
        x_dirs[j] = rng.fp2_nonzero();
        let ghost mid = rng.0;
        y_dirs[j] = rng.fp2_nonzero();
        proof {
            assert(crate::zerotest::nz_state(s0, (2 * j + 1) as nat) == mid);
            assert(crate::zerotest::nz_state(s0, (2 * j + 2) as nat) == rng.0);
        }
        j += 1;
    }
    (x_dirs, y_dirs)
}

/// The coordinate line: coefficient `var_idx` of the cofactor is `x + Y s`,
/// the others are the base.
pub open spec fn line_spec(base: Seq<Fp2>, var_idx: int, x: u32) -> Seq<(Seq<u32>, Seq<u32>)> {
    Seq::new(
        7,
        |j: int|
            if j == var_idx {
                (seq![x], seq![0u32, 1u32])
            } else {
                (trim_spec(seq![base[j].c0]), trim_spec(seq![base[j].c1]))
            },
    )
}

/// The affine plane at `X = x`: coefficient `j` is `base_j + x X_j + Y Y_j`.
pub open spec fn plane_spec(base: Seq<Fp2>, x_dirs: Seq<Fp2>, y_dirs: Seq<Fp2>, x: u32) -> Seq<(Seq<u32>, Seq<u32>)> {
    Seq::new(
        7,
        |j: int| {
            let c = fp2_add_spec(base[j], scale_spec(x_dirs[j], x));
            (trim_spec(seq![c.c0, y_dirs[j].c0]), trim_spec(seq![c.c1, y_dirs[j].c1]))
        },
    )
}

/// `k z` in Fp2.
pub open spec fn scale_spec(z: Fp2, k: u32) -> Fp2 {
    Fp2 { c0: ((z.c0 as int * k as int) % modulus()) as u32, c1: ((z.c1 as int * k as int) % modulus()) as u32 }
}

proof fn lemma_const_ok(c: u32)
    requires
        c < P,
    ensures
        reduced(trim_spec(seq![c])),
        trim_spec(seq![c]).len() <= 1,
{
    lemma_trim(seq![c]);
}

proof fn lemma_pair_ok(c: u32, d: u32)
    requires
        c < P,
        d < P,
    ensures
        reduced(trim_spec(seq![c, d])),
        trim_spec(seq![c, d]).len() <= 2,
{
    lemma_trim(seq![c, d]);
}

/// The cofactor polynomials along the coordinate line at `X = x`.
pub fn cofactor_polys_at_x(base: &[Fp2; 7], var_idx: usize, x: u32) -> (g: Vec<Fp2Poly>)
    requires
        var_idx < ZT_D,
        x < P,
        fp2s_ok(base@),
    ensures
        g.len() == 7,
        cofactor_polys(g@) == line_spec(base@, var_idx as int, x),
        forall|j: int| 0 <= j < 7 ==> #[trigger] fp2p_ok(fp2p(g[j])),
{
    let mut g: Vec<Fp2Poly> = Vec::new();
    let mut j: usize = 0;
    while j < ZT_D
        invariant
            var_idx < 7,
            x < P,
            fp2s_ok(base@),
            j <= 7,
            g.len() == j,
            forall|k: int| 0 <= k < j ==> #[trigger] fp2p(g[k]) == line_spec(base@, var_idx as int, x)[k],
            forall|k: int| 0 <= k < j ==> #[trigger] fp2p_ok(fp2p(g[k])),
        decreases 7 - j,
    {
        if j == var_idx {
            let mut a: Vec<u32> = Vec::new();
            a.push(x);
            let mut b: Vec<u32> = Vec::new();
            b.push(0);
            b.push(1);
            proof {
                assert(a@ =~= seq![x]);
                assert(b@ =~= seq![0u32, 1u32]);
            }
            g.push((a, b));
        } else {
            let z = base[j];
            proof {
                assert(fp2_ok(base@[j as int]));
                lemma_const_ok(z.c0);
                lemma_const_ok(z.c1);
            }
            g.push(fp2_poly_const(z));
        }
        j += 1;
    }
    proof {
        assert(cofactor_polys(g@) =~= line_spec(base@, var_idx as int, x));
    }
    g
}

/// The cofactor polynomials along affine plane `(x_dirs, y_dirs)` at `X = x`.
pub fn cofactor_plane_polys_at_x(base: &[Fp2; 7], x_dirs: &[Fp2; 7], y_dirs: &[Fp2; 7], x: u32) -> (g: Vec<Fp2Poly>)
    requires
        fp2s_ok(base@),
        fp2s_ok(x_dirs@),
        fp2s_ok(y_dirs@),
    ensures
        g.len() == 7,
        cofactor_polys(g@) == plane_spec(base@, x_dirs@, y_dirs@, x),
        forall|j: int| 0 <= j < 7 ==> #[trigger] fp2p_ok(fp2p(g[j])),
{
    let mut g: Vec<Fp2Poly> = Vec::new();
    let mut j: usize = 0;
    while j < ZT_D
        invariant
            fp2s_ok(base@),
            fp2s_ok(x_dirs@),
            fp2s_ok(y_dirs@),
            j <= 7,
            g.len() == j,
            forall|k: int| 0 <= k < j ==> #[trigger] fp2p(g[k]) == plane_spec(base@, x_dirs@, y_dirs@, x)[k],
            forall|k: int| 0 <= k < j ==> #[trigger] fp2p_ok(fp2p(g[k])),
        decreases 7 - j,
    {
        proof {
            assert(fp2_ok(base@[j as int]));
            assert(fp2_ok(x_dirs@[j as int]) && fp2_ok(y_dirs@[j as int]));
        }
        let c = base[j].add(fp2_scale(x_dirs[j], x));
        let yd = y_dirs[j];
        let mut a: Vec<u32> = Vec::new();
        a.push(c.c0);
        a.push(yd.c0);
        let mut b: Vec<u32> = Vec::new();
        b.push(c.c1);
        b.push(yd.c1);
        proof {
            assert(a@ =~= seq![c.c0, yd.c0]);
            assert(b@ =~= seq![c.c1, yd.c1]);
            lemma_pair_ok(c.c0, yd.c0);
            lemma_pair_ok(c.c1, yd.c1);
        }
        g.push((pl::trim(&a), pl::trim(&b)));
        j += 1;
    }
    proof {
        assert(cofactor_polys(g@) =~= plane_spec(base@, x_dirs@, y_dirs@, x));
    }
    g
}

/// The base cofactor with coefficient `var_idx` replaced by `x + y s`.
pub fn concrete_cofactor(base: &[Fp2; 7], var_idx: usize, x: u32, y: u32) -> (g: [Fp2; 7])
    requires
        var_idx < ZT_D,
    ensures
        g@ == base@.update(var_idx as int, Fp2 { c0: x % P, c1: y % P }),
{
    let mut g = *base;
    g[var_idx] = Fp2::new(x, y);
    proof {
        assert(g@ =~= base@.update(var_idx as int, Fp2 { c0: x % P, c1: y % P }));
    }
    g
}

/// The point `(x, y)` of the affine plane: `base + x X + y Y`.
pub fn concrete_plane_cofactor(base: &[Fp2; 7], x_dirs: &[Fp2; 7], y_dirs: &[Fp2; 7], x: u32, y: u32) -> (g: [Fp2; 7])
    requires
        fp2s_ok(base@),
        fp2s_ok(x_dirs@),
        fp2s_ok(y_dirs@),
    ensures
        forall|j: int| 0 <= j < 7 ==> #[trigger] g@[j]
            == fp2_add_spec(fp2_add_spec(base@[j], scale_spec(x_dirs@[j], x)), scale_spec(y_dirs@[j], y)),
        forall|j: int| 0 <= j < 7 ==> #[trigger] fp2_ok(g@[j]),
{
    let mut g = [Fp2 { c0: 0, c1: 0 }; 7];
    let mut j: usize = 0;
    while j < ZT_D
        invariant
            fp2s_ok(base@),
            fp2s_ok(x_dirs@),
            fp2s_ok(y_dirs@),
            j <= 7,
            forall|k: int| 0 <= k < j ==> #[trigger] g@[k]
                == fp2_add_spec(fp2_add_spec(base@[k], scale_spec(x_dirs@[k], x)), scale_spec(y_dirs@[k], y)),
            forall|k: int| 0 <= k < j ==> #[trigger] fp2_ok(g@[k]),
        decreases 7 - j,
    {
        proof {
            assert(fp2_ok(base@[j as int]));
            assert(fp2_ok(x_dirs@[j as int]) && fp2_ok(y_dirs@[j as int]));
        }
        let a = base[j].add(fp2_scale(x_dirs[j], x));
        g[j] = a.add(fp2_scale(y_dirs[j], y));
        j += 1;
    }
    g
}

pub(crate) proof fn lemma_peval_const(c: u32, y: int)
    requires
        c < P,
    ensures
        peval(trim_spec(seq![c]), y) % modulus() == c,
{
    let k = seq![c];
    lemma_peval_trim(k, y);
    assert(k.drop_first() =~= Seq::<u32>::empty());
    assert(peval(Seq::<u32>::empty(), y) == 0);
    lemma_mul_basics(y);
    assert(peval(k, y) == c);
    lemma_small_mod(c as nat, P as nat);
}

pub(crate) proof fn lemma_peval_pair(c: u32, d: u32, y: int)
    ensures
        eqm(peval(trim_spec(seq![c, d]), y), c + d * y),
{
    let k = seq![c, d];
    lemma_peval_trim(k, y);
    assert(k.drop_first() =~= seq![d]);
    assert(k.drop_first().drop_first() =~= Seq::<u32>::empty());
    assert(peval(Seq::<u32>::empty(), y) == 0);
    lemma_mul_basics(y);
    assert(seq![d].drop_first() =~= Seq::<u32>::empty());
    assert(peval(seq![d], y) == d);
    lemma_mul_is_commutative(y, d as int);
    assert(peval(k, y) == c + d * y);
}

/// On the coordinate line, the cofactor at `Y = y` is the base with
/// coefficient `var_idx` set to `x + y s`.
pub proof fn lemma_line_specialises(base: Seq<Fp2>, var_idx: int, x: u32, y: u32)
    requires
        base.len() == 7,
        0 <= var_idx < 7,
        x < P,
        fp2s_ok(base),
    ensures
        cofactor_at(line_spec(base, var_idx, x), y as int) == base.update(var_idx, Fp2 { c0: x % P, c1: y % P }),
{
    let g = line_spec(base, var_idx, x);
    let want = base.update(var_idx, Fp2 { c0: x % P, c1: y % P });
    assert forall|j: int| 0 <= j < 7 implies #[trigger] cofactor_at(g, y as int)[j] == want[j] by {
        if j == var_idx {
            let a = seq![x];
            let b = seq![0u32, 1u32];
            assert(a.drop_first() =~= Seq::<u32>::empty());
            assert(b.drop_first() =~= seq![1u32]);
            assert(b.drop_first().drop_first() =~= Seq::<u32>::empty());
            assert(peval(Seq::<u32>::empty(), y as int) == 0);
            lemma_mul_basics(y as int);
            assert(peval(a, y as int) == x);
            assert(peval(seq![1u32], y as int) == 1);
            assert(peval(b, y as int) == y);
        } else {
            assert(fp2_ok(base[j]));
            lemma_peval_const(base[j].c0, y as int);
            lemma_peval_const(base[j].c1, y as int);
        }
    }
    assert(cofactor_at(g, y as int) =~= want);
}

/// On an affine plane, the cofactor at `Y = y` is `base + x X + y Y`.
pub proof fn lemma_plane_specialises(base: Seq<Fp2>, x_dirs: Seq<Fp2>, y_dirs: Seq<Fp2>, x: u32, y: u32)
    requires
        base.len() == 7,
        x_dirs.len() == 7,
        y_dirs.len() == 7,
        fp2s_ok(base),
        fp2s_ok(x_dirs),
        fp2s_ok(y_dirs),
    ensures
        forall|j: int| 0 <= j < 7 ==> #[trigger] cofactor_at(plane_spec(base, x_dirs, y_dirs, x), y as int)[j]
            == fp2_add_spec(fp2_add_spec(base[j], scale_spec(x_dirs[j], x)), scale_spec(y_dirs[j], y)),
{
    let p = modulus();
    let g = plane_spec(base, x_dirs, y_dirs, x);
    assert forall|j: int| 0 <= j < 7 implies #[trigger] cofactor_at(g, y as int)[j]
        == fp2_add_spec(fp2_add_spec(base[j], scale_spec(x_dirs[j], x)), scale_spec(y_dirs[j], y)) by {
        let c = fp2_add_spec(base[j], scale_spec(x_dirs[j], x));
        let d = y_dirs[j];
        let sy = scale_spec(d, y);
        lemma_peval_pair(c.c0, d.c0, y as int);
        lemma_peval_pair(c.c1, d.c1, y as int);
        lemma_mul_is_commutative(d.c0 as int, y as int);
        lemma_mul_is_commutative(d.c1 as int, y as int);
        lemma_eqm_mod(d.c0 * y);
        lemma_eqm_mod(d.c1 * y);
        lemma_eqm_add(c.c0 as int, c.c0 as int, d.c0 * y, sy.c0 as int);
        lemma_eqm_add(c.c1 as int, c.c1 as int, d.c1 * y, sy.c1 as int);
        lemma_eqm_mod(c.c0 + sy.c0);
        lemma_eqm_mod(c.c1 + sy.c1);
    }
}

// ---------------------------------------------------------------------------
// The hash over F_p[Y] and its residuals
// ---------------------------------------------------------------------------

/// The compression-mode hash of a state of polynomials: the permutation
/// plus the input.
pub open spec fn comp_poly_spec(rcs: Seq<Seq<u32>>, m: Seq<Seq<u32>>, r_f: int, r_p: int, input: Seq<Seq<u32>>) -> Seq<Seq<u32>> {
    let o = poly_perm(rcs, m, r_f, r_p, input);
    Seq::new(16, |i: int| add_spec(o[i], input[i]))
}

/// The two words of `H(input) - root`, as polynomials in `Y`.
pub open spec fn residual_poly_spec(pos: &Poseidon1, root: Fp2, input: Seq<Seq<u32>>) -> (Seq<u32>, Seq<u32>) {
    let c = comp_poly_spec(pos.rc_model(), pos.mds_model(), pos.r_f as int, pos.r_p as int, input);
    (trim_spec(sub_spec(c[0], seq![root.c0])), trim_spec(sub_spec(c[1], seq![root.c1])))
}

/// The residual pair along the coordinate line at `X = x`.
pub open spec fn line_residuals(pos: &Poseidon1, root: Fp2, base: Seq<Fp2>, var_idx: int, x: u32) -> (Seq<u32>, Seq<u32>) {
    residual_poly_spec(pos, root, rf_state_spec(root, line_spec(base, var_idx, x)))
}

/// The residual pair along the coordinate line for the canonical instance
/// with `rf`, `rp` rounds.
pub open spec fn canonical_line_residuals(rf: usize, rp: usize, root: Fp2, base: Seq<Fp2>, var_idx: int, x: u32) -> (Seq<u32>, Seq<u32>) {
    let c = comp_poly_spec(canonical_rcs(3, rf as nat, rp as nat), canonical_mds(), rf as int, rp as int, rf_state_spec(root, line_spec(base, var_idx, x)));
    (trim_spec(sub_spec(c[0], seq![root.c0])), trim_spec(sub_spec(c[1], seq![root.c1])))
}

/// The residual pair along an affine plane at `X = x`.
pub open spec fn plane_residuals(pos: &Poseidon1, root: Fp2, base: Seq<Fp2>, x_dirs: Seq<Fp2>, y_dirs: Seq<Fp2>, x: u32) -> (Seq<u32>, Seq<u32>) {
    residual_poly_spec(pos, root, rf_state_spec(root, plane_spec(base, x_dirs, y_dirs, x)))
}

/// What the scout needs of an instance: the cube S-box and degrees small
/// enough for the NTT.
pub open spec fn scout_instance(pos: &Poseidon1) -> bool {
    &&& pos.wf()
    &&& pos.alpha == 3
    &&& pow(3, (pos.r_f + pos.r_p) as nat) <= 4194304
}

/// The compression-mode hash over F_p[Y].
pub fn compression_hash_poly(pos: &Poseidon1, input: &[pl::Poly]) -> (out: Vec<pl::Poly>)
    requires
        scout_instance(pos),
        input.len() == 16,
        polys_within(polys(input@), 2),
    ensures
        out.len() == 16,
        polys(out@) == comp_poly_spec(pos.rc_model(), pos.mds_model(), pos.r_f as int, pos.r_p as int, polys(input@)),
        polys_within(polys(out@), 2 * pow(3, (pos.r_f + pos.r_p) as nat)),
{
    let ghost bound = 2 * pow(3, (pos.r_f + pos.r_p) as nat);
    let mut st: Vec<pl::Poly> = Vec::new();
    let mut i: usize = 0;
    while i < 16
        invariant
            input.len() == 16,
            i <= 16,
            st.len() == i,
            forall|k: int| 0 <= k < i ==> #[trigger] st[k]@ == input[k]@,
        decreases 16 - i,
    {
        let c = input[i].clone();
        proof {
            assert(c@ =~= input[i as int]@);
        }
        st.push(c);
        i += 1;
    }
    proof {
        assert(polys(st@) =~= polys(input@));
        lemma_pow_positive(3, (pos.r_f + pos.r_p) as nat);
    }
    let mut out = permutation_poly(pos, st);
    let ghost o = polys(out@);
    let mut k: usize = 0;
    while k < 16
        invariant
            input.len() == 16,
            out.len() == 16,
            k <= 16,
            bound >= 2,
            polys_within(polys(input@), 2),
            polys_within(o, bound),
            o.len() == 16,
            forall|j: int| k <= j < 16 ==> #[trigger] out[j]@ == o[j],
            forall|j: int| 0 <= j < k ==> #[trigger] out[j]@ == add_spec(o[j], input[j]@),
            forall|j: int| 0 <= j < k ==> reduced(#[trigger] out[j]@) && out[j]@.len() <= bound,
        decreases 16 - k,
    {
        proof {
            assert(reduced(polys(input@)[k as int]) && polys(input@)[k as int].len() <= 2);
            assert(reduced(o[k as int]) && o[k as int].len() <= bound);
            lemma_add_len(o[k as int], input[k as int]@);
        }
        let v = pl::add(&out[k], &input[k]);
        out.set(k, v);
        k += 1;
    }
    proof {
        assert(polys(out@) =~= comp_poly_spec(pos.rc_model(), pos.mds_model(), pos.r_f as int, pos.r_p as int, polys(input@)));
        assert forall|j: int| 0 <= j < polys(out@).len() implies reduced(#[trigger] polys(out@)[j]) && polys(out@)[j].len() <= bound by {
            assert(polys(out@)[j] == out[j]@);
        }
    }
    out
}

/// The two words of `H(input) - root` as polynomials in `Y`.
pub fn residual_polys_from_state(pos: &Poseidon1, root: Fp2, input: &[pl::Poly]) -> (r: (pl::Poly, pl::Poly))
    requires
        scout_instance(pos),
        fp2_ok(root),
        input.len() == 16,
        polys_within(polys(input@), 2),
    ensures
        (r.0@, r.1@) == residual_poly_spec(pos, root, polys(input@)),
        reduced(r.0@),
        reduced(r.1@),
        r.0.len() <= 2 * pow(3, (pos.r_f + pos.r_p) as nat),
        r.1.len() <= 2 * pow(3, (pos.r_f + pos.r_p) as nat),
{
    let out = compression_hash_poly(pos, input);
    let ghost bound = 2 * pow(3, (pos.r_f + pos.r_p) as nat);
    let mut k0: Vec<u32> = Vec::new();
    k0.push(root.c0);
    let mut k1: Vec<u32> = Vec::new();
    k1.push(root.c1);
    proof {
        assert(reduced(polys(out@)[0]) && polys(out@)[0].len() <= bound);
        assert(reduced(polys(out@)[1]) && polys(out@)[1].len() <= bound);
        assert(polys(out@)[0] == out[0]@ && polys(out@)[1] == out[1]@);
        assert(k0@ =~= seq![root.c0]);
        assert(k1@ =~= seq![root.c1]);
        lemma_pow_positive(3, (pos.r_f + pos.r_p) as nat);
        lemma_sub_len(out[0]@, k0@);
        lemma_sub_len(out[1]@, k1@);
    }
    let f0 = pl::sub(&out[0], &k0);
    let f1 = pl::sub(&out[1], &k1);
    proof {
        lemma_trim(f0@);
        lemma_trim(f1@);
    }
    (pl::trim(&f0), pl::trim(&f1))
}

/// The symbolic root-first state along the coordinate line at `X = x`.
pub fn root_first_state_at_x(root: Fp2, base: &[Fp2; 7], var_idx: usize, x: u32) -> (out: Vec<pl::Poly>)
    requires
        fp2_ok(root),
        var_idx < ZT_D,
        x < P,
        fp2s_ok(base@),
    ensures
        out.len() == 16,
        polys(out@) == rf_state_spec(root, line_spec(base@, var_idx as int, x)),
        polys_within(polys(out@), 2),
{
    let g = cofactor_polys_at_x(base, var_idx, x);
    root_first_state_from_cofactor_polys(root, &g)
}

/// The symbolic root-first state along an affine plane at `X = x`.
pub fn root_first_plane_state_at_x(root: Fp2, base: &[Fp2; 7], x_dirs: &[Fp2; 7], y_dirs: &[Fp2; 7], x: u32) -> (out: Vec<pl::Poly>)
    requires
        fp2_ok(root),
        fp2s_ok(base@),
        fp2s_ok(x_dirs@),
        fp2s_ok(y_dirs@),
    ensures
        out.len() == 16,
        polys(out@) == rf_state_spec(root, plane_spec(base@, x_dirs@, y_dirs@, x)),
        polys_within(polys(out@), 2),
{
    let g = cofactor_plane_polys_at_x(base, x_dirs, y_dirs, x);
    root_first_state_from_cofactor_polys(root, &g)
}

/// The residual polynomials along the coordinate line at `X = x`.
pub fn residual_polys_at_x(pos: &Poseidon1, root: Fp2, base: &[Fp2; 7], var_idx: usize, x: u32) -> (r: (pl::Poly, pl::Poly))
    requires
        scout_instance(pos),
        fp2_ok(root),
        var_idx < ZT_D,
        x < P,
        fp2s_ok(base@),
    ensures
        (r.0@, r.1@) == line_residuals(pos, root, base@, var_idx as int, x),
        reduced(r.0@),
        reduced(r.1@),
        r.0.len() <= 2 * pow(3, (pos.r_f + pos.r_p) as nat),
        r.1.len() <= 2 * pow(3, (pos.r_f + pos.r_p) as nat),
{
    let input = root_first_state_at_x(root, base, var_idx, x);
    residual_polys_from_state(pos, root, &input)
}

/// The residual polynomials along an affine plane at `X = x`.
pub fn plane_residual_polys_at_x(
    pos: &Poseidon1,
    root: Fp2,
    base: &[Fp2; 7],
    x_dirs: &[Fp2; 7],
    y_dirs: &[Fp2; 7],
    x: u32,
) -> (r: (pl::Poly, pl::Poly))
    requires
        scout_instance(pos),
        fp2_ok(root),
        fp2s_ok(base@),
        fp2s_ok(x_dirs@),
        fp2s_ok(y_dirs@),
    ensures
        (r.0@, r.1@) == plane_residuals(pos, root, base@, x_dirs@, y_dirs@, x),
        reduced(r.0@),
        reduced(r.1@),
        r.0.len() <= 2 * pow(3, (pos.r_f + pos.r_p) as nat),
        r.1.len() <= 2 * pow(3, (pos.r_f + pos.r_p) as nat),
{
    let input = root_first_plane_state_at_x(root, base, x_dirs, y_dirs, x);
    residual_polys_from_state(pos, root, &input)
}

/// `Res_Y` of the residual pair along the coordinate line at `X = x`.
pub fn resultant_at_x(pos: &Poseidon1, root: Fp2, base: &[Fp2; 7], var_idx: usize, x: u32) -> (r: u32)
    requires
        scout_instance(pos),
        fp2_ok(root),
        var_idx < ZT_D,
        x < P,
        fp2s_ok(base@),
    ensures
        r as int == res_spec(line_residuals(pos, root, base@, var_idx as int, x).0, line_residuals(pos, root, base@, var_idx as int, x).1),
        r < P,
{
    let (f0, f1) = residual_polys_at_x(pos, root, base, var_idx, x);
    pl::resultant(&f0, &f1)
}

/// `Res_Y` of the residual pair along an affine plane at `X = x`.
pub fn plane_resultant_at_x(
    pos: &Poseidon1,
    root: Fp2,
    base: &[Fp2; 7],
    x_dirs: &[Fp2; 7],
    y_dirs: &[Fp2; 7],
    x: u32,
) -> (r: u32)
    requires
        scout_instance(pos),
        fp2_ok(root),
        fp2s_ok(base@),
        fp2s_ok(x_dirs@),
        fp2s_ok(y_dirs@),
    ensures
        r as int == res_spec(
            plane_residuals(pos, root, base@, x_dirs@, y_dirs@, x).0,
            plane_residuals(pos, root, base@, x_dirs@, y_dirs@, x).1,
        ),
        r < P,
{
    let (f0, f1) = plane_residual_polys_at_x(pos, root, base, x_dirs, y_dirs, x);
    pl::resultant(&f0, &f1)
}

// ---------------------------------------------------------------------------
// What a common root of the residuals means
// ---------------------------------------------------------------------------

/// The root-first vector of the cofactor family `g` at `Y = y`.
pub open spec fn candidate_at(root: Fp2, g: Seq<(Seq<u32>, Seq<u32>)>, y: int) -> Seq<u32> {
    flat_spec(root_first_spec(root, cofactor_at(g, y)))
}

proof fn lemma_candidate_reduced(root: Fp2, g: Seq<(Seq<u32>, Seq<u32>)>, y: int)
    requires
        fp2_ok(root),
        g.len() == 7,
    ensures
        forall|i: int| 0 <= i < 16 ==> #[trigger] candidate_at(root, g, y)[i] < P,
        fp2s_ok(cofactor_at(g, y)),
{
    let cs = root_first_spec(root, cofactor_at(g, y));
    assert forall|j: int| 0 <= j < 8 implies #[trigger] fp2_ok(cs[j]) by {}
    assert forall|i: int| 0 <= i < 16 implies #[trigger] candidate_at(root, g, y)[i] < P by {
        assert(fp2_ok(cs[i / 2]));
    }
}

/// Evaluating the compression hash over F_p[Y] at `Y = y` gives the numeric
/// hash of the state evaluated at `y`.
pub proof fn lemma_comp_specialises(pos: &Poseidon1, input: Seq<Seq<u32>>, w: Seq<u32>, y: int)
    requires
        pos.wf(),
        input.len() == 16,
        w.len() == 16,
        forall|i: int| 0 <= i < 16 ==> #[trigger] w[i] < P,
        forall|i: int| 0 <= i < 16 ==> #[trigger] (peval(input[i], y) % modulus()) == w[i] as int,
    ensures
        forall|i: int| 0 <= i < 16 ==> #[trigger] (peval(comp_poly_spec(pos.rc_model(), pos.mds_model(), pos.r_f as int, pos.r_p as int, input)[i], y) % modulus())
            == compression_model(pos.rc_model(), pos.mds_model(), pos.r_f as int, pos.r_p as int, w.map_values(|v: u32| (v % P) as u32))[i],
{
    let p = modulus();
    let rcs = pos.rc_model();
    let m = pos.mds_model();
    let rf = pos.r_f as int;
    let rp = pos.r_p as int;
    let wm = w.map_values(|v: u32| (v % P) as u32);
    let es = eval_state(input, y);
    assert forall|i: int| 0 <= i < 16 implies #[trigger] es[i] == reduce_words(wm)[i] by {
        lemma_small_mod(w[i] as nat, P as nat);
        assert(wm[i] == w[i]);
    }
    assert(es =~= reduce_words(wm));
    lemma_symbolic_plain_perm_evaluates(rcs, m, rf, rp, input, y);
    let o = poseidon_perm(rcs, m, rf, rp, es, false);
    let perm = poly_perm(rcs, m, rf, rp, input);
    let comp = comp_poly_spec(rcs, m, rf, rp, input);
    let out = compression_model(rcs, m, rf, rp, wm);
    assert forall|i: int| 0 <= i < 16 implies #[trigger] (peval(comp[i], y) % p) == out[i] by {
        lemma_peval_add(perm[i], input[i], y);
        assert(eval_state(perm, y)[i] == o[i]);
        lemma_eqm_mod(peval(perm[i], y));
        lemma_eqm_mod(peval(input[i], y));
        lemma_eqm_add(o[i], peval(perm[i], y), es[i], peval(input[i], y));
    }
}

/// `peval(trim(c - k), y)` for a constant-or-linear `k`.
pub(crate) proof fn lemma_sub_specialises(c: Seq<u32>, k: Seq<u32>, y: int, cv: int, kv: int)
    requires
        peval(c, y) % modulus() == cv,
        eqm(peval(k, y), kv),
    ensures
        peval(trim_spec(sub_spec(c, k)), y) % modulus() == (cv - kv) % modulus(),
{
    lemma_peval_trim(sub_spec(c, k), y);
    lemma_peval_sub(c, k, y);
    lemma_eqm_mod(peval(c, y));
    lemma_eqm_sub(peval(c, y), cv, peval(k, y), kv);
    lemma_eqm_mod(cv - kv);
}

/// Evaluating the residual polynomials of a root-first family at `Y = y`
/// gives the hash point of the concrete candidate minus the root.
pub proof fn lemma_residuals_specialise(pos: &Poseidon1, root: Fp2, g: Seq<(Seq<u32>, Seq<u32>)>, y: int)
    requires
        pos.wf(),
        fp2_ok(root),
        g.len() == 7,
    ensures
        fp2p_at(residual_poly_spec(pos, root, rf_state_spec(root, g)), y) == fp2_sub_spec(
            hash_point_model(pos.rc_model(), pos.mds_model(), pos.r_f as int, pos.r_p as int, candidate_at(root, g, y)),
            root,
        ),
{
    let p = modulus();
    let rcs = pos.rc_model();
    let m = pos.mds_model();
    let rf = pos.r_f as int;
    let rp = pos.r_p as int;
    let input = rf_state_spec(root, g);
    let flat = candidate_at(root, g, y);
    lemma_state_specialises(root, g, y);
    lemma_candidate_reduced(root, g, y);
    lemma_comp_specialises(pos, input, flat, y);
    let comp = comp_poly_spec(rcs, m, rf, rp, input);
    let out = compression_model(rcs, m, rf, rp, flat.map_values(|v: u32| (v % P) as u32));
    let h = hash_point_model(rcs, m, rf, rp, flat);
    assert(h.c0 as int == out[0] && h.c1 as int == out[1]);
    assert((peval(comp[0], y) % p) == out[0] && (peval(comp[1], y) % p) == out[1]);
    let k0 = seq![root.c0];
    let k1 = seq![root.c1];
    assert(k0.drop_first() =~= Seq::<u32>::empty());
    assert(k1.drop_first() =~= Seq::<u32>::empty());
    assert(peval(Seq::<u32>::empty(), y) == 0);
    lemma_mul_basics(y);
    assert(peval(k0, y) == root.c0 && peval(k1, y) == root.c1);
    lemma_sub_specialises(comp[0], k0, y, out[0], root.c0 as int);
    lemma_sub_specialises(comp[1], k1, y, out[1], root.c1 as int);
}

/// A common root `y` of the two residual polynomials gives a candidate
/// that passes the zero test, when the cofactor at `y` is nonzero:
/// back-substitution cannot miss.
pub proof fn lemma_common_root_wins(pos: &Poseidon1, root: Fp2, g: Seq<(Seq<u32>, Seq<u32>)>, y: int)
    requires
        pos.wf(),
        fp2_ok(root),
        g.len() == 7,
        peval(residual_poly_spec(pos, root, rf_state_spec(root, g)).0, y) % modulus() == 0,
        peval(residual_poly_spec(pos, root, rf_state_spec(root, g)).1, y) % modulus() == 0,
        exists|k: int| 0 <= k < 7 && !#[trigger] crate::zerotest::fp2_is_zero(cofactor_at(g, y)[k]),
    ensures
        is_zero_residual(residual_spec(pos, candidate_at(root, g, y))),
{
    lemma_residuals_specialise(pos, root, g, y);
    lemma_candidate_reduced(root, g, y);
    let gy = cofactor_at(g, y);
    assert forall|k: int| 0 <= k < 7 implies #[trigger] fp2_ok(gy[k]) by {}
    lemma_root_first_wins(pos, root, gy);
}

// ---------------------------------------------------------------------------
// The search
// ---------------------------------------------------------------------------

/// A one-parameter family of cofactors: the coordinate line of one
/// coefficient, or an affine plane taken at a fixed `X`.
#[derive(Clone, Copy, Debug)]
pub enum CofactorFamily {
    Line { base: [Fp2; 7], var_idx: usize },
    Plane { base: [Fp2; 7], x_dirs: [Fp2; 7], y_dirs: [Fp2; 7] },
}

/// The family is well formed.
pub open spec fn family_ok(f: CofactorFamily) -> bool {
    match f {
        CofactorFamily::Line { base, var_idx } => fp2s_ok(base@) && var_idx < 7,
        CofactorFamily::Plane { base, x_dirs, y_dirs } => fp2s_ok(base@) && fp2s_ok(x_dirs@) && fp2s_ok(y_dirs@),
    }
}

/// The cofactor polynomials of the family at `X = x`.
pub open spec fn family_spec(f: CofactorFamily, x: u32) -> Seq<(Seq<u32>, Seq<u32>)> {
    match f {
        CofactorFamily::Line { base, var_idx } => line_spec(base@, var_idx as int, x),
        CofactorFamily::Plane { base, x_dirs, y_dirs } => plane_spec(base@, x_dirs@, y_dirs@, x),
    }
}

/// The residual pair of the family at `X = x`.
pub open spec fn family_residuals(pos: &Poseidon1, root: Fp2, f: CofactorFamily, x: u32) -> (Seq<u32>, Seq<u32>) {
    residual_poly_spec(pos, root, rf_state_spec(root, family_spec(f, x)))
}

/// The interpolated elimination polynomial through the samples.
pub open spec fn elim_spec(xs: Seq<u32>, ys: Seq<u32>) -> Seq<u32> {
    trim_spec(pl::newton_form(xs, pl::newton_coefs(xs, ys), 0, xs.len() as int))
}

/// The interpolant agrees with a fresh resultant at `X = x`.
pub open spec fn guard_agrees(pos: &Poseidon1, root: Fp2, f: CofactorFamily, e: Seq<u32>, x: int) -> bool {
    peval(e, x) % modulus() == res_spec(family_residuals(pos, root, f, x as u32).0, family_residuals(pos, root, f, x as u32).1)
}

/// The interpolant agrees with fresh resultants at `from, ..., from + n - 1`.
pub open spec fn guards_agree(pos: &Poseidon1, root: Fp2, f: CofactorFamily, e: Seq<u32>, from: int, n: int) -> bool {
    forall|h: int| 0 <= h < n ==> #[trigger] guard_agrees(pos, root, f, e, from + h)
}

fn family_residual_polys(pos: &Poseidon1, root: Fp2, fam: &CofactorFamily, x: u32) -> (r: (pl::Poly, pl::Poly))
    requires
        scout_instance(pos),
        fp2_ok(root),
        family_ok(*fam),
        x < P,
    ensures
        (r.0@, r.1@) == family_residuals(pos, root, *fam, x),
        reduced(r.0@),
        reduced(r.1@),
        r.0.len() <= 2 * pow(3, (pos.r_f + pos.r_p) as nat),
        r.1.len() <= 2 * pow(3, (pos.r_f + pos.r_p) as nat),
{
    match fam {
        CofactorFamily::Line { base, var_idx } => residual_polys_at_x(pos, root, base, *var_idx, x),
        CofactorFamily::Plane { base, x_dirs, y_dirs } => plane_residual_polys_at_x(pos, root, base, x_dirs, y_dirs, x),
    }
}

fn family_resultant(pos: &Poseidon1, root: Fp2, fam: &CofactorFamily, x: u32) -> (r: u32)
    requires
        scout_instance(pos),
        fp2_ok(root),
        family_ok(*fam),
        x < P,
    ensures
        r as int == res_spec(family_residuals(pos, root, *fam, x).0, family_residuals(pos, root, *fam, x).1),
        r < P,
{
    proof {
        lemma_pow_positive(3, (pos.r_f + pos.r_p) as nat);
    }
    let (f0, f1) = family_residual_polys(pos, root, fam, x);
    pl::resultant(&f0, &f1)
}

/// The concrete cofactor of the family at `(x, y)`.
fn family_point(fam: &CofactorFamily, x: u32, y: u32) -> (g: [Fp2; 7])
    requires
        family_ok(*fam),
        x < P,
        y < P,
    ensures
        g@ == cofactor_at(family_spec(*fam, x), y as int),
        fp2s_ok(g@),
{
    match fam {
        CofactorFamily::Line { base, var_idx } => {
            let g = concrete_cofactor(base, *var_idx, x, y);
            proof {
                lemma_line_specialises(base@, *var_idx as int, x, y);
                lemma_small_mod(x as nat, P as nat);
                lemma_small_mod(y as nat, P as nat);
                assert(g@ =~= cofactor_at(family_spec(*fam, x), y as int));
            }
            g
        },
        CofactorFamily::Plane { base, x_dirs, y_dirs } => {
            let g = concrete_plane_cofactor(base, x_dirs, y_dirs, x, y);
            proof {
                lemma_plane_specialises(base@, x_dirs@, y_dirs@, x, y);
                assert(g@ =~= cofactor_at(family_spec(*fam, x), y as int));
            }
            g
        },
    }
}

/// `Res_Y` of the residual pair of the family at every sample `x`.
pub fn sample_family_resultants(pos: &Poseidon1, root: Fp2, fam: &CofactorFamily, xs: &[u32]) -> (ys: Vec<u32>)
    requires
        scout_instance(pos),
        fp2_ok(root),
        family_ok(*fam),
        reduced(xs@),
    ensures
        ys.len() == xs.len(),
        forall|i: int| 0 <= i < xs.len() ==> #[trigger] ys[i] as int
            == res_spec(family_residuals(pos, root, *fam, xs[i]).0, family_residuals(pos, root, *fam, xs[i]).1),
        reduced(ys@),
{
    let mut ys: Vec<u32> = Vec::new();
    let mut i: usize = 0;
    while i < xs.len()
        invariant
            scout_instance(pos),
            fp2_ok(root),
            family_ok(*fam),
            reduced(xs@),
            i <= xs.len(),
            ys.len() == i,
            forall|k: int| 0 <= k < i ==> #[trigger] ys[k] as int
                == res_spec(family_residuals(pos, root, *fam, xs[k]).0, family_residuals(pos, root, *fam, xs[k]).1),
            forall|k: int| 0 <= k < i ==> #[trigger] ys@[k] < P,
        decreases xs.len() - i,
    {
        proof {
            assert(xs@[i as int] < P);
        }
        let r = family_resultant(pos, root, fam, xs[i]);
        ys.push(r);
        i += 1;
    }
    ys
}

/// `Res_Y` along the coordinate line at every sample `x`.
pub fn sample_resultants(pos: &Poseidon1, root: Fp2, base: &[Fp2; 7], var_idx: usize, xs: &[u32]) -> (ys: Vec<u32>)
    requires
        scout_instance(pos),
        fp2_ok(root),
        fp2s_ok(base@),
        var_idx < ZT_D,
        reduced(xs@),
    ensures
        ys.len() == xs.len(),
        forall|i: int| 0 <= i < xs.len() ==> #[trigger] ys[i] as int
            == res_spec(line_residuals(pos, root, base@, var_idx as int, xs[i]).0, line_residuals(pos, root, base@, var_idx as int, xs[i]).1),
{
    let fam = CofactorFamily::Line { base: *base, var_idx };
    sample_family_resultants(pos, root, &fam, xs)
}

/// `Res_Y` along an affine plane at every sample `x`.
pub fn sample_plane_resultants(
    pos: &Poseidon1,
    root: Fp2,
    base: &[Fp2; 7],
    x_dirs: &[Fp2; 7],
    y_dirs: &[Fp2; 7],
    xs: &[u32],
) -> (ys: Vec<u32>)
    requires
        scout_instance(pos),
        fp2_ok(root),
        fp2s_ok(base@),
        fp2s_ok(x_dirs@),
        fp2s_ok(y_dirs@),
        reduced(xs@),
    ensures
        ys.len() == xs.len(),
        forall|i: int| 0 <= i < xs.len() ==> #[trigger] ys[i] as int == res_spec(
            plane_residuals(pos, root, base@, x_dirs@, y_dirs@, xs[i]).0,
            plane_residuals(pos, root, base@, x_dirs@, y_dirs@, xs[i]).1,
        ),
{
    let fam = CofactorFamily::Plane { base: *base, x_dirs: *x_dirs, y_dirs: *y_dirs };
    sample_family_resultants(pos, root, &fam, xs)
}

/// The residual pair of a family at `X = x` for the canonical instance with
/// `rf`, `rp` rounds.
pub open spec fn canonical_family_residuals(rf: usize, rp: usize, root: Fp2, f: CofactorFamily, x: u32) -> (Seq<u32>, Seq<u32>) {
    let c = comp_poly_spec(canonical_rcs(3, rf as nat, rp as nat), canonical_mds(), rf as int, rp as int, rf_state_spec(root, family_spec(f, x)));
    (trim_spec(sub_spec(c[0], seq![root.c0])), trim_spec(sub_spec(c[1], seq![root.c1])))
}

/// `Res_Y` of the canonical residual pair at `X = 1, ..., n`.
pub open spec fn family_samples(rf: usize, rp: usize, root: Fp2, f: CofactorFamily, n: int) -> Seq<u32> {
    Seq::new(
        n as nat,
        |i: int|
            res_spec(
                canonical_family_residuals(rf, rp, root, f, (i + 1) as u32).0,
                canonical_family_residuals(rf, rp, root, f, (i + 1) as u32).1,
            ) as u32,
    )
}

/// The eliminant of a run: interpolated through the given samples, or
/// through `Res_Y` at `X = 1, ..., 3^(2 rf + rp) + 1`.
pub open spec fn family_elim(rf: usize, rp: usize, root: Fp2, f: CofactorFamily, data: Option<(Seq<u32>, Seq<u32>)>) -> Seq<u32> {
    match data {
        Some((xs, ys)) => elim_spec(xs, ys),
        None => elim_spec(
            crate::rootgrid::grid_xs(pow(3, (2 * rf + rp) as nat) + 1),
            family_samples(rf, rp, root, f, pow(3, (2 * rf + rp) as nat) + 1),
        ),
    }
}

/// The eliminant takes the fresh canonical resultant at `X = from, ..., from + n - 1`.
pub open spec fn canonical_guards_agree(rf: usize, rp: usize, root: Fp2, f: CofactorFamily, e: Seq<u32>, from: int, n: int) -> bool {
    forall|h: int| 0 <= h < n ==> #[trigger] peval(e, from + h) % modulus() == res_spec(
        canonical_family_residuals(rf, rp, root, f, (from + h) as u32).0,
        canonical_family_residuals(rf, rp, root, f, (from + h) as u32).1,
    )
}

/// `scout_witness` for the canonical instance with `rf`, `rp` rounds.
#[verifier::opaque]
pub open spec fn canonical_witness(rf: usize, rp: usize, root: Fp2, f: CofactorFamily, e: Seq<u32>, x: u32, y: u32) -> bool {
    &&& x < P
    &&& y < P
    &&& peval(e, x as int) % modulus() == 0
    &&& !(canonical_family_residuals(rf, rp, root, f, x).0.len() == 0 && canonical_family_residuals(rf, rp, root, f, x).1.len() == 0)
    &&& peval(canonical_family_residuals(rf, rp, root, f, x).0, y as int) % modulus() == 0
    &&& peval(canonical_family_residuals(rf, rp, root, f, x).1, y as int) % modulus() == 0
    &&& passes_canonical(rf, rp, candidate_at(root, family_spec(f, x), y as int))
}

/// The samples handed to a run, as sequences.
pub open spec fn data_view(data: Option<(&[u32], &[u32])>) -> Option<(Seq<u32>, Seq<u32>)> {
    match data {
        Some((xs, ys)) => Some((xs@, ys@)),
        None => None,
    }
}

/// On the canonical instance the scout's guard and witness predicates are
/// their canonical forms.
proof fn lemma_canonical_scout(pos: &Poseidon1, rf: usize, rp: usize, root: Fp2, f: CofactorFamily, e: Seq<u32>, from: int)
    requires
        pos.rc_model() == canonical_rcs(3, rf as nat, rp as nat),
        pos.mds_model() == canonical_mds(),
        pos.r_f == rf,
        pos.r_p == rp,
    ensures
        guards_agree(pos, root, f, e, from, 4) == canonical_guards_agree(rf, rp, root, f, e, from, 4),
        forall|x: u32, y: u32|
            #![trigger scout_witness(pos, root, f, e, x, y)]
            #![trigger canonical_witness(rf, rp, root, f, e, x, y)]
            scout_witness(pos, root, f, e, x, y) == canonical_witness(rf, rp, root, f, e, x, y),
{
    reveal(scout_witness);
    reveal(canonical_witness);
    assert forall|x: u32| #[trigger] family_residuals(pos, root, f, x) == canonical_family_residuals(rf, rp, root, f, x) by {}
    assert forall|p: Seq<u32>| #[trigger] residual_spec(pos, p) == residual_model(canonical_rcs(3, rf as nat, rp as nat), canonical_mds(), rf as int, rp as int, p) by {}
    if guards_agree(pos, root, f, e, from, 4) {
        assert forall|h: int| 0 <= h < 4 implies #[trigger] peval(e, from + h) % modulus() == res_spec(
            canonical_family_residuals(rf, rp, root, f, (from + h) as u32).0,
            canonical_family_residuals(rf, rp, root, f, (from + h) as u32).1,
        ) by {
            assert(guard_agrees(pos, root, f, e, from + h));
        }
    }
    if canonical_guards_agree(rf, rp, root, f, e, from, 4) {
        assert forall|h: int| 0 <= h < 4 implies #[trigger] guard_agrees(pos, root, f, e, from + h) by {
            assert(peval(e, from + h) % modulus() == res_spec(
                canonical_family_residuals(rf, rp, root, f, (from + h) as u32).0,
                canonical_family_residuals(rf, rp, root, f, (from + h) as u32).1,
            ));
        }
    }
}

/// The number of roots in `[0, p)` of a nonzero `e` (none for zero).
pub open spec fn root_count(e: Seq<u32>) -> int {
    if crate::poly_spec::degree(e) >= 0 { pl::root_set(e).len() as int } else { 0 }
}

/// `y` is a common root of the residual pair at a root `x` of the eliminant
/// `e` (the pair not both zero), and the candidate there passes the zero test.
#[verifier::opaque]
pub open spec fn scout_witness(pos: &Poseidon1, root: Fp2, f: CofactorFamily, e: Seq<u32>, x: u32, y: u32) -> bool {
    &&& x < P
    &&& y < P
    &&& peval(e, x as int) % modulus() == 0
    &&& !(family_residuals(pos, root, f, x).0.len() == 0 && family_residuals(pos, root, f, x).1.len() == 0)
    &&& peval(family_residuals(pos, root, f, x).0, y as int) % modulus() == 0
    &&& peval(family_residuals(pos, root, f, x).1, y as int) % modulus() == 0
    &&& is_zero_residual(residual_spec(pos, candidate_at(root, family_spec(f, x), y as int)))
}

/// The candidates `y` back-substitution tries at `x`: the roots of the gcd
/// of the residual pair at `x`, in increasing order.
#[verifier::opaque]
pub open spec fn y_candidates_at(pos: &Poseidon1, root: Fp2, f: CofactorFamily, x: u32) -> Seq<u32> {
    pl::sorted_roots(crate::poly_spec::gcd_spec(family_residuals(pos, root, f, x).0, family_residuals(pos, root, f, x).1))
}

/// The candidates tried at the first `n` of the roots `xs`.
#[verifier::opaque]
pub open spec fn y_tried(pos: &Poseidon1, root: Fp2, f: CofactorFamily, xs: Seq<u32>, n: int) -> int
    decreases n,
{
    if n <= 0 {
        0
    } else {
        y_tried(pos, root, f, xs, n - 1) + y_candidates_at(pos, root, f, xs[n - 1]).len()
    }
}

/// `y_candidates_at` for the canonical instance with `rf`, `rp` rounds.
#[verifier::opaque]
pub open spec fn canonical_y_candidates_at(rf: usize, rp: usize, root: Fp2, f: CofactorFamily, x: u32) -> Seq<u32> {
    pl::sorted_roots(crate::poly_spec::gcd_spec(
        canonical_family_residuals(rf, rp, root, f, x).0,
        canonical_family_residuals(rf, rp, root, f, x).1,
    ))
}

/// `y_tried` for the canonical instance with `rf`, `rp` rounds.
#[verifier::opaque]
pub open spec fn canonical_y_tried(rf: usize, rp: usize, root: Fp2, f: CofactorFamily, xs: Seq<u32>, n: int) -> int
    decreases n,
{
    if n <= 0 {
        0
    } else {
        canonical_y_tried(rf, rp, root, f, xs, n - 1) + canonical_y_candidates_at(rf, rp, root, f, xs[n - 1]).len()
    }
}

/// A count that stops at `usize::MAX`.
#[verifier::opaque]
pub open spec fn saturated(n: int) -> int {
    if n > usize::MAX {
        usize::MAX as int
    } else {
        n
    }
}

/// A count below the limit is itself.
proof fn lemma_saturated_small(n: int)
    requires
        0 <= n <= usize::MAX,
    ensures
        saturated(n) == n,
{
    reveal(saturated);
}

/// The saturating sum of two counts.
proof fn lemma_saturated_sum(a: int, b: int)
    requires
        0 <= a <= usize::MAX,
        0 <= b <= usize::MAX,
    ensures
        (if usize::MAX - a < b { usize::MAX as int } else { a + b }) == saturated(a + b),
{
    reveal(saturated);
}

/// Adding to a saturated count saturates the sum.
proof fn lemma_saturated_add(t: int, c: int, d: int)
    requires
        t >= 0,
        d >= 0,
        c == saturated(t),
    ensures
        saturated(c + d) == saturated(t + d),
{
    reveal(saturated);
}

/// A hit `(x, y)` after `c` candidates: `x` is the `i`-th of the roots `sr`,
/// `y` the `j`-th candidate at `x`, and `c` counts the candidates at the roots
/// before `x` and those up to `y` at `x`.
#[verifier::opaque]
pub open spec fn hit_count(pos: &Poseidon1, root: Fp2, f: CofactorFamily, sr: Seq<u32>, x: u32, y: u32, c: int) -> bool {
    exists|i: int, j: int|
        0 <= i < sr.len() && #[trigger] sr[i] == x
        && 0 <= j < y_candidates_at(pos, root, f, x).len() && #[trigger] y_candidates_at(pos, root, f, x)[j] == y
        && c == saturated(y_tried(pos, root, f, sr, i) + j + 1)
}

/// `hit_count` for the canonical instance with `rf`, `rp` rounds.
#[verifier::opaque]
pub open spec fn canonical_hit_count(rf: usize, rp: usize, root: Fp2, f: CofactorFamily, sr: Seq<u32>, x: u32, y: u32, c: int) -> bool {
    exists|i: int, j: int|
        0 <= i < sr.len() && #[trigger] sr[i] == x
        && 0 <= j < canonical_y_candidates_at(rf, rp, root, f, x).len() && #[trigger] canonical_y_candidates_at(rf, rp, root, f, x)[j] == y
        && c == saturated(canonical_y_tried(rf, rp, root, f, sr, i) + j + 1)
}

proof fn lemma_hit_count(pos: &Poseidon1, root: Fp2, f: CofactorFamily, sr: Seq<u32>, i: int, j: int, x: u32, y: u32, c: int)
    requires
        0 <= i < sr.len(),
        sr[i] == x,
        0 <= j < y_candidates_at(pos, root, f, x).len(),
        y_candidates_at(pos, root, f, x)[j] == y,
        c == saturated(y_tried(pos, root, f, sr, i) + j + 1),
    ensures
        hit_count(pos, root, f, sr, x, y, c),
{
    reveal(hit_count);
}

/// One more root's candidates.
proof fn lemma_y_tried_step(pos: &Poseidon1, root: Fp2, f: CofactorFamily, xs: Seq<u32>, i: int)
    requires
        i >= 0,
        y_tried(pos, root, f, xs, i) >= 0,
    ensures
        y_tried(pos, root, f, xs, i + 1) == y_tried(pos, root, f, xs, i) + y_candidates_at(pos, root, f, xs[i]).len(),
        y_tried(pos, root, f, xs, i + 1) >= 0,
{
    reveal(y_tried);
}

/// On the canonical instance the candidate counts are their canonical forms.
proof fn lemma_canonical_y_tried(pos: &Poseidon1, rf: usize, rp: usize, root: Fp2, f: CofactorFamily, xs: Seq<u32>, n: int)
    requires
        pos.rc_model() == canonical_rcs(3, rf as nat, rp as nat),
        pos.mds_model() == canonical_mds(),
        pos.r_f == rf,
        pos.r_p == rp,
    ensures
        y_tried(pos, root, f, xs, n) == canonical_y_tried(rf, rp, root, f, xs, n),
        y_tried(pos, root, f, xs, n) >= 0,
        forall|x: u32| #[trigger] y_candidates_at(pos, root, f, x) == canonical_y_candidates_at(rf, rp, root, f, x),
    decreases n,
{
    reveal(y_tried);
    reveal(canonical_y_tried);
    assert forall|x: u32| #[trigger] family_residuals(pos, root, f, x) == canonical_family_residuals(rf, rp, root, f, x) by {}
    assert forall|x: u32| #[trigger] y_candidates_at(pos, root, f, x) == canonical_y_candidates_at(rf, rp, root, f, x) by {
        reveal(y_candidates_at);
        reveal(canonical_y_candidates_at);
        assert(family_residuals(pos, root, f, x) == canonical_family_residuals(rf, rp, root, f, x));
    }
    if n > 0 {
        lemma_canonical_y_tried(pos, rf, rp, root, f, xs, n - 1);
        assert(y_candidates_at(pos, root, f, xs[n - 1]) == canonical_y_candidates_at(rf, rp, root, f, xs[n - 1]));
    }
}

/// What a search over one family found.
#[derive(Clone, Copy, Debug)]
pub struct ScoutRun {
    /// The first `(x, y, p_hat)` that passed the zero test.
    pub found: Option<(u32, u32, [u32; 16])>,
    /// The interpolated polynomial agreed with fresh resultants at the guard points.
    pub stable: bool,
    pub elim_degree: i64,
    pub x_roots: usize,
    pub y_candidates: usize,
}

/// Interpolates the sampled resultants, checks them at four guard points
/// from `guard_from` on, and back-substitutes every root `x` of the
/// interpolant and every common root `y` of the residual pair at `x`.
#[verifier::rlimit(100)]
pub fn scout_from_samples(
    pos: &Poseidon1,
    root: Fp2,
    fam: &CofactorFamily,
    xs: &[u32],
    ys: &[u32],
    guard_from: u32,
) -> (run: ScoutRun)
    requires
        scout_instance(pos),
        fp2_ok(root),
        family_ok(*fam),
        xs.len() == ys.len(),
        1 <= xs.len() <= 8388608,
        reduced(xs@),
        reduced(ys@),
        guard_from + 4 <= P,
    ensures
        run.elim_degree as int == crate::poly_spec::degree(elim_spec(xs@, ys@)),
        run.stable == guards_agree(pos, root, *fam, elim_spec(xs@, ys@), guard_from as int, 4),
        run.found matches Some((x, y, p_hat)) ==> {
            &&& x < P
            &&& y < P
            &&& peval(elim_spec(xs@, ys@), x as int) % modulus() == 0
            &&& peval(family_residuals(pos, root, *fam, x).0, y as int) % modulus() == 0
            &&& peval(family_residuals(pos, root, *fam, x).1, y as int) % modulus() == 0
            &&& p_hat@ == candidate_at(root, family_spec(*fam, x), y as int)
            &&& is_zero_residual(residual_spec(pos, p_hat@))
            &&& scout_witness(pos, root, *fam, elim_spec(xs@, ys@), x, y)
            &&& forall|x2: u32, y2: u32| (x2 < x || (x2 == x && y2 < y)) ==>
                !#[trigger] scout_witness(pos, root, *fam, elim_spec(xs@, ys@), x2, y2)
        },
        run.found is None && crate::poly_spec::degree(elim_spec(xs@, ys@)) >= 0 ==> forall|x: u32, y: u32|
            !#[trigger] scout_witness(pos, root, *fam, elim_spec(xs@, ys@), x, y),
        run.x_roots as int == root_count(elim_spec(xs@, ys@)),
        run.found matches Some((x, y, p_hat)) ==> hit_count(pos, root, *fam, pl::sorted_roots(elim_spec(xs@, ys@)), x, y, run.y_candidates as int),
        run.found is None ==> run.y_candidates == saturated(y_tried(
            pos, root, *fam, pl::sorted_roots(elim_spec(xs@, ys@)), pl::sorted_roots(elim_spec(xs@, ys@)).len() as int)),
{
    let r_poly = pl::interpolate(xs, ys);
    let elim_degree = pl::deg(&r_poly);
    let ghost e = elim_spec(xs@, ys@);
    let mut stable = true;
    let mut g: u32 = 0;
    while g < 4
        invariant
            scout_instance(pos),
            fp2_ok(root),
            family_ok(*fam),
            r_poly@ == e,
            canon(e),
            guard_from + 4 <= P,
            g <= 4,
            stable == guards_agree(pos, root, *fam, e, guard_from as int, g as int),
        decreases 4 - g,
    {
        let x = guard_from + g;
        let v = pl::eval(&r_poly, x);
        let w = family_resultant(pos, root, fam, x);
        if v != w {
            stable = false;
        }
        proof {
            assert(x as int == guard_from + g);
            assert(guard_agrees(pos, root, *fam, e, guard_from + g) == (v == w));
            if stable {
                assert forall|h: int| 0 <= h < g + 1 implies #[trigger] guard_agrees(pos, root, *fam, e, guard_from + h) by {}
            }
        }
        g += 1;
    }
    let x_roots = pl::roots(&r_poly);
    proof {
        if crate::poly_spec::degree(e) < 0 {
            assert(x_roots.len() == 0);
        }
    }
    let mut y_candidates: usize = 0;
    proof {
        assert(y_tried(pos, root, *fam, x_roots@, 0) == 0) by {
            reveal(y_tried);
        }
        lemma_saturated_small(0);
    }
    let mut i: usize = 0;
    while i < x_roots.len()
        invariant
            scout_instance(pos),
            fp2_ok(root),
            family_ok(*fam),
            r_poly@ == e,
            elim_degree as int == crate::poly_spec::degree(e),
            e == elim_spec(xs@, ys@),
            stable == guards_agree(pos, root, *fam, e, guard_from as int, 4),
            i <= x_roots.len(),
            forall|k: int| 0 <= k < x_roots.len() ==> #[trigger] x_roots[k] < P,
            forall|k: int| 0 <= k < x_roots.len() ==> #[trigger] (peval(e, x_roots[k] as int) % modulus()) == 0,
            crate::poly_spec::degree(e) >= 0 ==> forall|x: u32| x < P && peval(e, x as int) % modulus() == 0 ==> #[trigger] x_roots@.contains(x),
            x_roots.len() == 0 || crate::poly_spec::degree(e) >= 0,
            pl::strictly_increasing(x_roots@),
            forall|k: int, y: u32| 0 <= k < i ==> !#[trigger] scout_witness(pos, root, *fam, e, x_roots@[k], y),
            x_roots.len() as int == root_count(e),
            x_roots@ == pl::sorted_roots(e),
            y_tried(pos, root, *fam, x_roots@, i as int) >= 0,
            y_candidates == saturated(y_tried(pos, root, *fam, x_roots@, i as int)),
        decreases x_roots.len() - i,
    {
        let x = x_roots[i];
        proof {
            assert(x_roots[i as int] < P);
            assert((peval(e, x_roots[i as int] as int) % modulus()) == 0);
        }
        let ghost c_before = y_candidates;
        let (at_x, tried) = scout_at_x(pos, root, fam, x, Ghost(e));
        proof {
            lemma_saturated_sum(y_candidates as int, tried as int);
        }
        y_candidates = if usize::MAX - y_candidates < tried { usize::MAX } else { y_candidates + tried };
        proof {
            lemma_saturated_add(y_tried(pos, root, *fam, x_roots@, i as int), c_before as int, tried as int);
        }
        match at_x {
            Some((y, p_hat)) => {
                proof {
                    assert(x_roots@[i as int] == x);
                    assert forall|x2: u32, y2: u32| (x2 < x || (x2 == x && y2 < y)) implies
                        !#[trigger] scout_witness(pos, root, *fam, e, x2, y2) by {
                        if x2 < x && scout_witness(pos, root, *fam, e, x2, y2) {
                            reveal(scout_witness);
                            assert(x_roots@.contains(x2));
                            let kk = choose|kk: int| 0 <= kk < x_roots.len() && x_roots@[kk] == x2;
                            if kk >= i {
                                if kk > i {
                                    assert(x_roots@[i as int] < x_roots@[kk]);
                                }
                                assert(false);
                            }
                            assert(!scout_witness(pos, root, *fam, e, x_roots@[kk], y2));
                        }
                    }
                }
                let run = ScoutRun {
                    found: Some((x, y, p_hat)),
                    stable,
                    elim_degree,
                    x_roots: x_roots.len(),
                    y_candidates,
                };
                proof {
                    lemma_hit_count(pos, root, *fam, x_roots@, i as int, tried - 1, x, y, y_candidates as int);
                }
                return run;
            },
            None => {},
        }
        proof {
            assert(x_roots@[i as int] == x);
            lemma_y_tried_step(pos, root, *fam, x_roots@, i as int);
            assert forall|kk: int, yy: u32| 0 <= kk < i + 1 implies !#[trigger] scout_witness(pos, root, *fam, e, x_roots@[kk], yy) by {
                if kk == i {
                    assert(!scout_witness(pos, root, *fam, e, x, yy));
                }
            }
        }
        i += 1;
    }
    proof {
        reveal(scout_witness);
        if crate::poly_spec::degree(e) >= 0 {
            assert forall|xx: u32, yy: u32| !#[trigger] scout_witness(pos, root, *fam, e, xx, yy) by {
                if scout_witness(pos, root, *fam, e, xx, yy) {
                    assert(x_roots@.contains(xx));
                    let kk = choose|kk: int| 0 <= kk < x_roots.len() && x_roots@[kk] == xx;
                    assert(!scout_witness(pos, root, *fam, e, x_roots@[kk], yy));
                }
            }
        }
    }
    ScoutRun { found: None, stable, elim_degree, x_roots: x_roots.len(), y_candidates }
}

/// Back-substitution at one root `x` of the eliminant: the common roots `y`
/// of the residual pair in increasing order, each counted, until a candidate
/// passes the zero test.
#[verifier::rlimit(100)]
fn scout_at_x(
    pos: &Poseidon1,
    root: Fp2,
    fam: &CofactorFamily,
    x: u32,
    Ghost(e): Ghost<Seq<u32>>,
) -> (res: (Option<(u32, [u32; 16])>, usize))
    requires
        scout_instance(pos),
        fp2_ok(root),
        family_ok(*fam),
        x < P,
        peval(e, x as int) % modulus() == 0,
    ensures
        ({
            let r = res.0;
            &&& r matches Some((y, p_hat)) ==> scout_witness(pos, root, *fam, e, x, y)
            && p_hat@ == candidate_at(root, family_spec(*fam, x), y as int)
            && y < P
            && peval(family_residuals(pos, root, *fam, x).0, y as int) % modulus() == 0
            && peval(family_residuals(pos, root, *fam, x).1, y as int) % modulus() == 0
            && is_zero_residual(residual_spec(pos, p_hat@))
            &&& r matches Some((y, p_hat)) ==> forall|y2: u32| y2 < y ==> !#[trigger] scout_witness(pos, root, *fam, e, x, y2)
            &&& r is None ==> forall|y: u32| !#[trigger] scout_witness(pos, root, *fam, e, x, y)
            &&& r is None ==> res.1 == y_candidates_at(pos, root, *fam, x).len()
            &&& r matches Some((y, p_hat)) ==> 1 <= res.1 <= y_candidates_at(pos, root, *fam, x).len()
                && y_candidates_at(pos, root, *fam, x)[res.1 - 1] == y
        }),
{
    proof {
        reveal(scout_witness);
        lemma_pow_positive(3, (pos.r_f + pos.r_p) as nat);
    }
    let (f0, f1) = family_residual_polys(pos, root, fam, x);
    let gg = pl::gcd(&f0, &f1);
    proof {
        assert(gg.len() <= 8388608);
    }
    let ys_here = pl::roots(&gg);
    proof {
        if f0@.len() == 0 && f1@.len() == 0 {
            lemma_trim(gg@);
            assert(ys_here.len() == 0);
        }
        reveal(y_candidates_at);
        assert(ys_here@ == y_candidates_at(pos, root, *fam, x));
        reveal(scout_witness);
        assert forall|yy: u32| #[trigger] scout_witness(pos, root, *fam, e, x, yy) implies ys_here@.contains(yy) by {
            crate::poly_divides::lemma_common_root(f0@, f1@, gg@, yy as int);
            if gg.len() == 0 {
                assert(gg@ =~= Seq::<u32>::empty());
                crate::poly_divides::lemma_divided_by_zero(f0@);
                crate::poly_divides::lemma_divided_by_zero(f1@);
                let c = comp_poly_spec(pos.rc_model(), pos.mds_model(), pos.r_f as int, pos.r_p as int, rf_state_spec(root, family_spec(*fam, x)));
                lemma_trim(sub_spec(c[0], seq![root.c0]));
                lemma_trim(sub_spec(c[1], seq![root.c1]));
                crate::poly_spec::lemma_trim_canon(f0@);
                crate::poly_spec::lemma_trim_canon(f1@);
            }
            crate::poly_spec::lemma_trim_canon(gg@);
        }
    }
    let mut k: usize = 0;
    while k < ys_here.len()
        invariant
            scout_instance(pos),
            fp2_ok(root),
            family_ok(*fam),
            x < P,
            peval(e, x as int) % modulus() == 0,
            (f0@, f1@) == family_residuals(pos, root, *fam, x),
            divides(gg@, f0@),
            divides(gg@, f1@),
            f0@.len() == 0 && f1@.len() == 0 ==> ys_here.len() == 0,
            pl::strictly_increasing(ys_here@),
            forall|yy: u32| #[trigger] scout_witness(pos, root, *fam, e, x, yy) ==> ys_here@.contains(yy),
            ys_here@ == y_candidates_at(pos, root, *fam, x),
            k <= ys_here.len(),
            forall|j: int| 0 <= j < ys_here.len() ==> #[trigger] ys_here[j] < P,
            forall|j: int| 0 <= j < ys_here.len() ==> #[trigger] (peval(gg@, ys_here[j] as int) % modulus()) == 0,
            forall|j: int| 0 <= j < k ==> !#[trigger] scout_witness(pos, root, *fam, e, x, ys_here@[j]),
        decreases ys_here.len() - k,
    {
        let y = ys_here[k];
        proof {
            assert(ys_here[k as int] < P);
            assert((peval(gg@, y as int) % modulus()) == 0);
            lemma_root_of_multiple(gg@, f0@, y as int);
            lemma_root_of_multiple(gg@, f1@, y as int);
        }
        let cofactor = family_point(fam, x, y);
        let coeffs = crate::zerotest::root_first_coeffs(root, &cofactor);
        let p_hat = crate::zerotest::flatten_coeffs(&coeffs);
        if crate::zerotest::verify_zerotest(pos, &p_hat) {
            proof {
                assert(y_candidates_at(pos, root, *fam, x)[k as int] == y);
                reveal(scout_witness);
                assert forall|y2: u32| y2 < y implies !#[trigger] scout_witness(pos, root, *fam, e, x, y2) by {
                    if scout_witness(pos, root, *fam, e, x, y2) {
                        let j = choose|j: int| 0 <= j < ys_here.len() && ys_here@[j] == y2;
                        if j >= k {
                            if j > k {
                                assert(ys_here@[k as int] < ys_here@[j]);
                            }
                            assert(false);
                        }
                        assert(!scout_witness(pos, root, *fam, e, x, ys_here@[j]));
                    }
                }
            }
            return (Some((y, p_hat)), k + 1);
        }
        proof {
            reveal(scout_witness);
            assert(!scout_witness(pos, root, *fam, e, x, ys_here@[k as int]));
        }
        k += 1;
    }
    proof {
        assert forall|yy: u32| !#[trigger] scout_witness(pos, root, *fam, e, x, yy) by {
            if scout_witness(pos, root, *fam, e, x, yy) {
                let j = choose|j: int| 0 <= j < ys_here.len() && ys_here@[j] == yy;
                assert(!scout_witness(pos, root, *fam, e, x, ys_here@[j]));
            }
        }
    }
    (None, ys_here.len())
}

/// The degree of the elimination polynomial: `3^(2 rf + rp)`.
pub fn expected_degree(rf: usize, rp: usize) -> (d: usize)
    requires
        pow(3, (2 * rf + rp) as nat) <= usize::MAX,
    ensures
        d == pow(3, (2 * rf + rp) as nat),
{
    proof {
        lemma_pow3_exceeds((2 * rf + rp) as nat);
    }
    crate::cico::pow3(2 * rf + rp)
}

proof fn lemma_pow3_exceeds(e: nat)
    ensures
        pow(3, e) > e,
    decreases e,
{
    lemma_pow0(3);
    if e > 0 {
        lemma_pow3_exceeds((e - 1) as nat);
        lemma_pow_adds(3, (e - 1) as nat, 1);
        lemma_pow1(3);
    }
}

/// A coordinate-line hit.
#[derive(Clone, Copy, Debug)]
pub struct Hit {
    pub seed: u64,
    pub root: Fp2,
    pub var_idx: usize,
    pub x: u32,
    pub y: u32,
    pub p_hat: [u32; 16],
    pub elim_degree: i64,
    pub x_roots: usize,
}

/// An affine-plane hit.
#[derive(Clone, Copy, Debug)]
pub struct PlaneHit {
    pub seed: u64,
    pub root: Fp2,
    pub plane_idx: usize,
    pub x: u32,
    pub y: u32,
    pub p_hat: [u32; 16],
    pub elim_degree: i64,
    pub x_roots: usize,
}

/// The outcome of one seed: the hit, if any, and what the search saw.
#[derive(Clone, Copy, Debug)]
pub struct SeedReport {
    pub hit: Option<Hit>,
    pub root: Fp2,
    pub base: [Fp2; 7],
    pub stable: bool,
    pub elim_degree: i64,
    pub x_roots: usize,
    pub y_candidates: usize,
}

/// The round counts the scout can run: the canonical instance builds, and
/// the elimination degree leaves room for the sample grid and the NTT.
pub open spec fn scout_rounds(rf: usize, rp: usize) -> bool {
    &&& rf < 256
    &&& rp < 256
    &&& pow(3, (rf + rp) as nat) <= 4194304
    &&& pow(3, (2 * rf + rp) as nat) < 8388600
}

/// The zero test on the canonical instance with `rf`, `rp` rounds.
pub open spec fn passes_canonical(rf: usize, rp: usize, p_hat: Seq<u32>) -> bool {
    is_zero_residual(residual_model(canonical_rcs(3, rf as nat, rp as nat), canonical_mds(), rf as int, rp as int, p_hat))
}

/// The point of affine plane `(x_dirs, y_dirs)` at `(x, y)`.
pub open spec fn plane_point(base: Seq<Fp2>, x_dirs: Seq<Fp2>, y_dirs: Seq<Fp2>, x: u32, y: u32) -> Seq<Fp2> {
    Seq::new(7, |j: int| fp2_add_spec(fp2_add_spec(base[j], scale_spec(x_dirs[j], x)), scale_spec(y_dirs[j], y)))
}

pub(crate) proof fn lemma_instance_ok(pos: &Poseidon1, rf: usize, rp: usize)
    requires
        scout_rounds(rf, rp),
        pos.wf(),
        pos.alpha == 3,
        pos.r_f == rf,
        pos.r_p == rp,
    ensures
        scout_instance(pos),
{
}

pub(crate) proof fn lemma_pow3_fits(rf: usize, rp: usize)
    requires
        scout_rounds(rf, rp),
    ensures
        pow(3, (2 * rf + rp) as nat) <= usize::MAX,
        (rf + rp) * 16 <= u32::MAX,
{
}

/// Every word is below `P`.
pub(crate) fn all_reduced(v: &[u32]) -> (b: bool)
    ensures
        b == reduced(v@),
{
    let mut i: usize = 0;
    while i < v.len()
        invariant
            i <= v.len(),
            forall|k: int| 0 <= k < i ==> #[trigger] v@[k] < P,
        decreases v.len() - i,
    {
        if v[i] >= P {
            return false;
        }
        i += 1;
    }
    true
}

/// The sample grid `1, ..., n`.
pub(crate) fn sample_grid(n: usize) -> (xs: Vec<u32>)
    requires
        n < 8388608,
    ensures
        xs.len() == n,
        forall|i: int| 0 <= i < n ==> #[trigger] xs[i] == i + 1,
        reduced(xs@),
{
    let mut xs: Vec<u32> = Vec::new();
    let mut i: usize = 0;
    while i < n
        invariant
            n < 8388608,
            i <= n,
            xs.len() == i,
            forall|k: int| 0 <= k < i ==> #[trigger] xs[k] == k + 1,
        decreases n - i,
    {
        xs.push((i + 1) as u32);
        i += 1;
    }
    proof {
        assert forall|k: int| 0 <= k < xs@.len() implies #[trigger] xs@[k] < P by {
            assert(xs[k] == k + 1);
        }
    }
    xs
}

/// Runs the coordinate-line search for one seed: samples `Res_Y` at
/// `x = 1, ..., 3^(2 rf + rp) + 1`, interpolates, and back-substitutes.
pub fn solve_seed(rf: usize, rp: usize, seed_idx: usize, var_idx: usize) -> (rep: SeedReport)
    requires
        scout_rounds(rf, rp),
        scout_seed_spec(rf, rp, seed_idx) <= u64::MAX,
        var_idx < ZT_D,
    ensures
        fp2_ok(rep.root),
        fp2s_ok(rep.base@),
        rep.root == fixed_root_spec(scout_seed_spec(rf, rp, seed_idx) as u64),
        rep.base@ == fixed_cofactor_spec(scout_seed_spec(rf, rp, seed_idx) as u64),
        line_search_outcome(rf, rp, var_idx, None, rep),
        rep.hit matches Some(h) ==> {
            &&& h.seed as int == scout_seed_spec(rf, rp, seed_idx)
            &&& h.root == rep.root
            &&& h.var_idx == var_idx
            &&& h.elim_degree == rep.elim_degree
            &&& h.x_roots == rep.x_roots
            &&& h.x < P
            &&& h.y < P
            &&& h.p_hat@ == flat_spec(root_first_spec(h.root, rep.base@.update(var_idx as int, Fp2 { c0: h.x, c1: h.y })))
            &&& passes_canonical(rf, rp, h.p_hat@)
        },
{
    let seed = scout_seed(rf, rp, seed_idx);
    solve_line(rf, rp, seed, var_idx, None)
}

/// The coordinate-line search on samples `(xs, ys)` loaded from shards;
/// `None` unless there are exactly `3^(2 rf + rp) + 1` samples; the samples
/// are taken mod p.
pub fn solve_from_samples(rf: usize, rp: usize, seed_idx: usize, var_idx: usize, xs: &[u32], ys: &[u32]) -> (rep: Option<SeedReport>)
    requires
        scout_rounds(rf, rp),
        scout_seed_spec(rf, rp, seed_idx) <= u64::MAX,
        var_idx < ZT_D,
    ensures
        rep.is_some() <==> (xs.len() == pow(3, (2 * rf + rp) as nat) + 1 && ys.len() == xs.len()),
        rep matches Some(r) ==> {
            &&& r.root == fixed_root_spec(scout_seed_spec(rf, rp, seed_idx) as u64)
            &&& r.base@ == fixed_cofactor_spec(scout_seed_spec(rf, rp, seed_idx) as u64)
            &&& line_search_outcome(rf, rp, var_idx, Some((crate::reduced_words(xs@), crate::reduced_words(ys@))), r)
        },
        rep matches Some(r) ==> fp2_ok(r.root) && fp2s_ok(r.base@) && (r.hit matches Some(h) ==> {
            &&& h.seed as int == scout_seed_spec(rf, rp, seed_idx)
            &&& h.root == r.root
            &&& h.var_idx == var_idx
            &&& h.x < P
            &&& h.y < P
            &&& h.p_hat@ == flat_spec(root_first_spec(h.root, r.base@.update(var_idx as int, Fp2 { c0: h.x, c1: h.y })))
            &&& passes_canonical(rf, rp, h.p_hat@)
        }),
{
    proof {
        lemma_pow3_fits(rf, rp);
    }
    let n = expected_degree(rf, rp) + 1;
    if xs.len() != n || ys.len() != n {
        return None;
    }
    let xr = crate::reduce_all(xs);
    let yr = crate::reduce_all(ys);
    let seed = scout_seed(rf, rp, seed_idx);
    Some(solve_line(rf, rp, seed, var_idx, Some((&xr, &yr))))
}

/// What a run over a family reports of its eliminant `e`: its degree, the
/// guard check at the four points past the samples, a hit `(x, y)` that is
/// a witness with no witness before it (by `x`, then `y`), where `e` is not
/// zero no hit only where there is no witness, and the number of candidates
/// `y` tried up to the hit (all of them without one), saturating.
pub open spec fn search_outcome(
    rf: usize,
    rp: usize,
    root: Fp2,
    fam: CofactorFamily,
    data: Option<(Seq<u32>, Seq<u32>)>,
    elim_degree: i64,
    stable: bool,
    x_roots: usize,
    y_candidates: usize,
    hit: Option<(u32, u32)>,
) -> bool {
    let e = family_elim(rf, rp, root, fam, data);
    &&& elim_degree as int == crate::poly_spec::degree(e)
    &&& x_roots as int == root_count(e)
    &&& stable == canonical_guards_agree(rf, rp, root, fam, e, pow(3, (2 * rf + rp) as nat) + 2, 4)
    &&& hit matches Some((x, y)) ==> canonical_witness(rf, rp, root, fam, e, x, y)
    &&& hit matches Some((x, y)) ==> forall|x2: u32, y2: u32| (x2 < x || (x2 == x && y2 < y)) ==>
        !#[trigger] canonical_witness(rf, rp, root, fam, e, x2, y2)
    &&& hit matches Some((x, y)) ==> canonical_hit_count(rf, rp, root, fam, pl::sorted_roots(e), x, y, y_candidates as int)
    &&& hit is None ==> y_candidates == saturated(canonical_y_tried(rf, rp, root, fam, pl::sorted_roots(e), pl::sorted_roots(e).len() as int))
    &&& hit is None && crate::poly_spec::degree(e) >= 0 ==> forall|x: u32, y: u32| !#[trigger] canonical_witness(rf, rp, root, fam, e, x, y)
}

/// The point of a coordinate-line hit.
pub open spec fn line_hit_xy(hit: Option<Hit>) -> Option<(u32, u32)> {
    match hit {
        Some(h) => Some((h.x, h.y)),
        None => None,
    }
}

/// The point of an affine-plane hit.
pub open spec fn plane_hit_xy(hit: Option<PlaneHit>) -> Option<(u32, u32)> {
    match hit {
        Some(h) => Some((h.x, h.y)),
        None => None,
    }
}

/// What a coordinate-line run reports (see `search_outcome`).
pub open spec fn line_search_outcome(rf: usize, rp: usize, var_idx: usize, data: Option<(Seq<u32>, Seq<u32>)>, rep: SeedReport) -> bool {
    search_outcome(rf, rp, rep.root, CofactorFamily::Line { base: rep.base, var_idx }, data, rep.elim_degree, rep.stable, rep.x_roots, rep.y_candidates, line_hit_xy(rep.hit))
}

/// What an affine-plane run reports (see `search_outcome`).
pub open spec fn plane_search_outcome(rf: usize, rp: usize, data: Option<(Seq<u32>, Seq<u32>)>, rep: PlaneReport) -> bool {
    search_outcome(
        rf,
        rp,
        rep.root,
        CofactorFamily::Plane { base: rep.base, x_dirs: rep.x_dirs, y_dirs: rep.y_dirs },
        data,
        rep.elim_degree,
        rep.stable,
        rep.x_roots,
        rep.y_candidates,
        plane_hit_xy(rep.hit),
    )
}

/// The samples taken on the grid `1, ..., n` of the canonical instance are
/// `family_samples`.
proof fn lemma_grid_samples(pos: &Poseidon1, rf: usize, rp: usize, root: Fp2, fam: CofactorFamily, xs: Seq<u32>, ys: Seq<u32>)
    requires
        pos.rc_model() == canonical_rcs(3, rf as nat, rp as nat),
        pos.mds_model() == canonical_mds(),
        pos.r_f == rf,
        pos.r_p == rp,
        ys.len() == xs.len(),
        forall|i: int| 0 <= i < xs.len() ==> #[trigger] xs[i] == i + 1,
        forall|i: int| 0 <= i < xs.len() ==> #[trigger] ys[i] as int == res_spec(
            family_residuals(pos, root, fam, xs[i]).0,
            family_residuals(pos, root, fam, xs[i]).1,
        ),
    ensures
        xs == crate::rootgrid::grid_xs(xs.len() as int),
        ys == family_samples(rf, rp, root, fam, xs.len() as int),
{
    assert(xs =~= crate::rootgrid::grid_xs(xs.len() as int));
    assert forall|i: int| 0 <= i < xs.len() implies #[trigger] ys[i] == family_samples(rf, rp, root, fam, xs.len() as int)[i] by {
        assert(xs[i] == i + 1);
        assert(family_residuals(pos, root, fam, xs[i]) == canonical_family_residuals(rf, rp, root, fam, (i + 1) as u32));
        assert(ys[i] as int == res_spec(
            canonical_family_residuals(rf, rp, root, fam, (i + 1) as u32).0,
            canonical_family_residuals(rf, rp, root, fam, (i + 1) as u32).1,
        ));
    }
    assert(ys =~= family_samples(rf, rp, root, fam, xs.len() as int));
}

/// A run's report from the scout's outcome on the canonical instance.
proof fn lemma_search_outcome(
    pos: &Poseidon1,
    rf: usize,
    rp: usize,
    root: Fp2,
    fam: CofactorFamily,
    data: Option<(Seq<u32>, Seq<u32>)>,
    e: Seq<u32>,
    run: ScoutRun,
    hit: Option<(u32, u32)>,
)
    requires
        pos.rc_model() == canonical_rcs(3, rf as nat, rp as nat),
        pos.mds_model() == canonical_mds(),
        pos.r_f == rf,
        pos.r_p == rp,
        e == family_elim(rf, rp, root, fam, data),
        run.elim_degree as int == crate::poly_spec::degree(e),
        run.x_roots as int == root_count(e),
        run.stable == guards_agree(pos, root, fam, e, pow(3, (2 * rf + rp) as nat) + 2, 4),
        run.found matches Some((x, y, p_hat)) ==> scout_witness(pos, root, fam, e, x, y),
        run.found matches Some((x, y, p_hat)) ==> forall|x2: u32, y2: u32| (x2 < x || (x2 == x && y2 < y)) ==>
            !#[trigger] scout_witness(pos, root, fam, e, x2, y2),
        run.found is None && crate::poly_spec::degree(e) >= 0 ==> forall|x: u32, y: u32|
            !#[trigger] scout_witness(pos, root, fam, e, x, y),
        run.found matches Some((x, y, p_hat)) ==> hit_count(pos, root, fam, pl::sorted_roots(e), x, y, run.y_candidates as int),
        run.found is None ==> run.y_candidates == saturated(y_tried(pos, root, fam, pl::sorted_roots(e), pl::sorted_roots(e).len() as int)),
        hit is None <==> run.found is None,
        hit matches Some((hx, hy)) ==> (run.found matches Some((x, y, p_hat)) && hx == x && hy == y),
    ensures
        search_outcome(rf, rp, root, fam, data, run.elim_degree, run.stable, run.x_roots, run.y_candidates, hit),
{
    lemma_canonical_scout(pos, rf, rp, root, fam, e, pow(3, (2 * rf + rp) as nat) + 2);
    let sr = pl::sorted_roots(e);
    lemma_canonical_y_tried(pos, rf, rp, root, fam, sr, sr.len() as int);
    match run.found {
        Some((x, y, p_hat)) => {
            reveal(hit_count);
            reveal(canonical_hit_count);
            let (i, j) = choose|i: int, j: int|
                0 <= i < sr.len() && #[trigger] sr[i] == x
                && 0 <= j < y_candidates_at(pos, root, fam, x).len() && #[trigger] y_candidates_at(pos, root, fam, x)[j] == y
                && run.y_candidates == saturated(y_tried(pos, root, fam, sr, i) + j + 1);
            lemma_canonical_y_tried(pos, rf, rp, root, fam, sr, i);
            assert(canonical_y_candidates_at(rf, rp, root, fam, x)[j] == y);
            assert(sr[i] == x);
        },
        None => {},
    }
}

/// The shared body of the coordinate-line drivers: sampled or given data.
#[verifier::rlimit(80)]
fn solve_line(rf: usize, rp: usize, seed: u64, var_idx: usize, data: Option<(&[u32], &[u32])>) -> (rep: SeedReport)
    requires
        scout_rounds(rf, rp),
        var_idx < ZT_D,
        data matches Some((xs, ys)) ==> xs.len() == pow(3, (2 * rf + rp) as nat) + 1 && ys.len() == xs.len() && reduced(xs@) && reduced(ys@),
    ensures
        fp2_ok(rep.root),
        fp2s_ok(rep.base@),
        rep.root == fixed_root_spec(seed),
        rep.base@ == fixed_cofactor_spec(seed),
        line_search_outcome(rf, rp, var_idx, data_view(data), rep),
        rep.hit matches Some(h) ==> {
            &&& h.seed == seed
            &&& h.root == rep.root
            &&& h.var_idx == var_idx
            &&& h.elim_degree == rep.elim_degree
            &&& h.x_roots == rep.x_roots
            &&& h.x < P
            &&& h.y < P
            &&& h.p_hat@ == flat_spec(root_first_spec(h.root, rep.base@.update(var_idx as int, Fp2 { c0: h.x, c1: h.y })))
            &&& passes_canonical(rf, rp, h.p_hat@)
        },
{
    proof {
        lemma_pow3_fits(rf, rp);
    }
    let pos = Poseidon1::new_canonical(3, 16, rf, rp);
    proof {
        lemma_instance_ok(&pos, rf, rp);
    }
    let root = fixed_root(seed);
    let base = fixed_cofactor(seed);
    let n = expected_degree(rf, rp) + 1;
    let fam = CofactorFamily::Line { base, var_idx };
    let ghost e = family_elim(rf, rp, root, fam, data_view(data));
    let run = match data {
        Some((xs, ys)) => scout_from_samples(&pos, root, &fam, xs, ys, (n + 1) as u32),
        None => {
            let xs = sample_grid(n);
            let ys = sample_family_resultants(&pos, root, &fam, &xs);
            proof {
                lemma_grid_samples(&pos, rf, rp, root, fam, xs@, ys@);
            }
            scout_from_samples(&pos, root, &fam, &xs, &ys, (n + 1) as u32)
        },
    };
    let hit = match run.found {
        Some((x, y, p_hat)) => {
            proof {
                lemma_line_specialises(base@, var_idx as int, x, y);
                lemma_small_mod(x as nat, P as nat);
                lemma_small_mod(y as nat, P as nat);
            }
            Some(Hit { seed, root, var_idx, x, y, p_hat, elim_degree: run.elim_degree, x_roots: run.x_roots })
        },
        None => None,
    };
    let rep = SeedReport {
        hit,
        root,
        base,
        stable: run.stable,
        elim_degree: run.elim_degree,
        x_roots: run.x_roots,
        y_candidates: run.y_candidates,
    };
    proof {
        lemma_search_outcome(&pos, rf, rp, root, fam, data_view(data), e, run, line_hit_xy(hit));
    }
    rep
}

/// The outcome of one seed and plane.
#[derive(Clone, Copy, Debug)]
pub struct PlaneReport {
    pub hit: Option<PlaneHit>,
    pub root: Fp2,
    pub base: [Fp2; 7],
    pub x_dirs: [Fp2; 7],
    pub y_dirs: [Fp2; 7],
    pub stable: bool,
    pub elim_degree: i64,
    pub x_roots: usize,
    pub y_candidates: usize,
}

/// Runs the affine-plane search for one seed and plane.
pub fn solve_plane_seed(rf: usize, rp: usize, seed_idx: usize, plane_idx: usize) -> (rep: PlaneReport)
    requires
        scout_rounds(rf, rp),
        scout_seed_spec(rf, rp, seed_idx) <= u64::MAX,
    ensures
        fp2_ok(rep.root),
        fp2s_ok(rep.base@),
        rep.root == fixed_root_spec(scout_seed_spec(rf, rp, seed_idx) as u64),
        rep.base@ == fixed_cofactor_spec(scout_seed_spec(rf, rp, seed_idx) as u64),
        rep.x_dirs@ == plane_x_dirs_spec(scout_seed_spec(rf, rp, seed_idx) as u64, plane_idx),
        rep.y_dirs@ == plane_y_dirs_spec(scout_seed_spec(rf, rp, seed_idx) as u64, plane_idx),
        plane_search_outcome(rf, rp, None, rep),
        rep.hit matches Some(h) ==> {
            &&& h.seed as int == scout_seed_spec(rf, rp, seed_idx)
            &&& h.root == rep.root
            &&& h.plane_idx == plane_idx
            &&& h.elim_degree == rep.elim_degree
            &&& h.x_roots == rep.x_roots
            &&& h.p_hat@ == flat_spec(root_first_spec(h.root, plane_point(rep.base@, rep.x_dirs@, rep.y_dirs@, h.x, h.y)))
            &&& passes_canonical(rf, rp, h.p_hat@)
        },
{
    let seed = scout_seed(rf, rp, seed_idx);
    solve_plane(rf, rp, seed, plane_idx, None)
}

/// The affine-plane search on samples `(xs, ys)` loaded from shards; `None`
/// unless there are exactly `3^(2 rf + rp) + 1` samples; the samples are taken mod p.
pub fn solve_plane_from_samples(rf: usize, rp: usize, seed_idx: usize, plane_idx: usize, xs: &[u32], ys: &[u32]) -> (rep: Option<PlaneReport>)
    requires
        scout_rounds(rf, rp),
        scout_seed_spec(rf, rp, seed_idx) <= u64::MAX,
    ensures
        rep.is_some() <==> (xs.len() == pow(3, (2 * rf + rp) as nat) + 1 && ys.len() == xs.len()),
        rep matches Some(r) ==> {
            &&& r.root == fixed_root_spec(scout_seed_spec(rf, rp, seed_idx) as u64)
            &&& r.base@ == fixed_cofactor_spec(scout_seed_spec(rf, rp, seed_idx) as u64)
            &&& r.x_dirs@ == plane_x_dirs_spec(scout_seed_spec(rf, rp, seed_idx) as u64, plane_idx)
            &&& r.y_dirs@ == plane_y_dirs_spec(scout_seed_spec(rf, rp, seed_idx) as u64, plane_idx)
            &&& plane_search_outcome(rf, rp, Some((crate::reduced_words(xs@), crate::reduced_words(ys@))), r)
        },
        rep matches Some(r) ==> fp2_ok(r.root) && fp2s_ok(r.base@) && (r.hit matches Some(h) ==> {
            &&& h.seed as int == scout_seed_spec(rf, rp, seed_idx)
            &&& h.root == r.root
            &&& h.plane_idx == plane_idx
            &&& h.p_hat@ == flat_spec(root_first_spec(h.root, plane_point(r.base@, r.x_dirs@, r.y_dirs@, h.x, h.y)))
            &&& passes_canonical(rf, rp, h.p_hat@)
        }),
{
    proof {
        lemma_pow3_fits(rf, rp);
    }
    let n = expected_degree(rf, rp) + 1;
    if xs.len() != n || ys.len() != n {
        return None;
    }
    let xr = crate::reduce_all(xs);
    let yr = crate::reduce_all(ys);
    let seed = scout_seed(rf, rp, seed_idx);
    Some(solve_plane(rf, rp, seed, plane_idx, Some((&xr, &yr))))
}

/// The shared body of the affine-plane drivers.
#[verifier::rlimit(80)]
fn solve_plane(rf: usize, rp: usize, seed: u64, plane_idx: usize, data: Option<(&[u32], &[u32])>) -> (rep: PlaneReport)
    requires
        scout_rounds(rf, rp),
        data matches Some((xs, ys)) ==> xs.len() == pow(3, (2 * rf + rp) as nat) + 1 && ys.len() == xs.len() && reduced(xs@) && reduced(ys@),
    ensures
        fp2_ok(rep.root),
        fp2s_ok(rep.base@),
        rep.root == fixed_root_spec(seed),
        rep.base@ == fixed_cofactor_spec(seed),
        rep.x_dirs@ == plane_x_dirs_spec(seed, plane_idx),
        rep.y_dirs@ == plane_y_dirs_spec(seed, plane_idx),
        plane_search_outcome(rf, rp, data_view(data), rep),
        rep.hit matches Some(h) ==> {
            &&& h.seed == seed
            &&& h.root == rep.root
            &&& h.plane_idx == plane_idx
            &&& h.elim_degree == rep.elim_degree
            &&& h.x_roots == rep.x_roots
            &&& h.p_hat@ == flat_spec(root_first_spec(h.root, plane_point(rep.base@, rep.x_dirs@, rep.y_dirs@, h.x, h.y)))
            &&& passes_canonical(rf, rp, h.p_hat@)
        },
{
    proof {
        lemma_pow3_fits(rf, rp);
    }
    let pos = Poseidon1::new_canonical(3, 16, rf, rp);
    proof {
        lemma_instance_ok(&pos, rf, rp);
    }
    let root = fixed_root(seed);
    let base = fixed_cofactor(seed);
    let (x_dirs, y_dirs) = plane_dirs(seed, plane_idx);
    let n = expected_degree(rf, rp) + 1;
    let fam = CofactorFamily::Plane { base, x_dirs, y_dirs };
    let ghost e = family_elim(rf, rp, root, fam, data_view(data));
    let run = match data {
        Some((xs, ys)) => scout_from_samples(&pos, root, &fam, xs, ys, (n + 1) as u32),
        None => {
            let xs = sample_grid(n);
            let ys = sample_family_resultants(&pos, root, &fam, &xs);
            proof {
                lemma_grid_samples(&pos, rf, rp, root, fam, xs@, ys@);
            }
            scout_from_samples(&pos, root, &fam, &xs, &ys, (n + 1) as u32)
        },
    };
    let hit = match run.found {
        Some((x, y, p_hat)) => {
            proof {
                lemma_plane_specialises(base@, x_dirs@, y_dirs@, x, y);
                assert(cofactor_at(family_spec(fam, x), y as int) =~= plane_point(base@, x_dirs@, y_dirs@, x, y));
            }
            Some(PlaneHit { seed, root, plane_idx, x, y, p_hat, elim_degree: run.elim_degree, x_roots: run.x_roots })
        },
        None => None,
    };
    let rep = PlaneReport {
        hit,
        root,
        base,
        x_dirs,
        y_dirs,
        stable: run.stable,
        elim_degree: run.elim_degree,
        x_roots: run.x_roots,
        y_candidates: run.y_candidates,
    };
    proof {
        lemma_search_outcome(&pos, rf, rp, root, fam, data_view(data), e, run, plane_hit_xy(hit));
        assert(x_dirs@ =~= plane_x_dirs_spec(seed, plane_idx));
        assert(y_dirs@ =~= plane_y_dirs_spec(seed, plane_idx));
    }
    rep
}

} // verus!
