//! Fixed-cofactor search for the zero test.
//!
//! The cofactor `G` of `P(z) = (z - r) G(z)` is fixed and the root moves as
//! `r = x + Y s`. For each `x` the two words of `H(P) - r` are polynomials
//! in `Y`; their resultant, sampled and interpolated, is a polynomial in `x`
//! whose roots are back-substituted and checked with the zero-test verifier.
use vstd::arithmetic::div_mod::*;
use vstd::arithmetic::mul::*;
use vstd::arithmetic::power::*;
use vstd::prelude::*;

use crate::cico::{lemma_scalar_len, polys, polys_within};
use crate::field::modulus;
use crate::poly as pl;
use crate::poly_divides::{divides, lemma_eqm_add, lemma_eqm_mul_left, lemma_eqm_sub, lemma_root_of_multiple};
use crate::poly_eval::{lemma_peval_scalar, lemma_peval_sub};
use crate::poly_ring::eqm;
use crate::poly_spec::{canon, degree, lemma_trim, peval, reduced, res_spec, scalar_spec, sub_spec, trim_spec};
use crate::rootvar::{
    all_reduced, comp_poly_spec, fp2p, compression_hash_poly, elim_spec, expected_degree, fixed_cofactor, fp2s_ok,
    lemma_comp_specialises, lemma_eqm_mod, lemma_eqm_mul2, lemma_eqm_neg_one, lemma_instance_ok,
    lemma_peval_pair, lemma_pow3_fits, lemma_sub_specialises, neg_spec, sample_grid, scout_instance, scout_rounds,
    passes_canonical,
};
use crate::zerotest::{
    flat_spec, fp2_mul_spec, fp2_neg_spec, fp2_ok, fp2_sub_spec, fp_mul, hash_point_model, is_zero_residual,
    lemma_root_first_wins, residual_spec, root_first_spec, Fp2, ZT_D,
};
use crate::{compression_model, Poseidon1, P};

verus! {

// ---------------------------------------------------------------------------
// Models
// ---------------------------------------------------------------------------

/// `(x + Y s) g` over Fp2[Y], with `s^2 = 3`.
pub open spec fn grid_rmul_spec(x: u32, g: Fp2) -> (Seq<u32>, Seq<u32>) {
    (
        trim_spec(seq![((x as int * g.c0 as int) % modulus()) as u32, ((3 * g.c1 as int) % modulus()) as u32]),
        trim_spec(seq![((x as int * g.c1 as int) % modulus()) as u32, g.c0]),
    )
}

/// Coefficient `j` of `(z - x - Y s) G(z)` over Fp2[Y].
pub open spec fn grid_coef_spec(x: u32, g: Seq<Fp2>, j: int) -> (Seq<u32>, Seq<u32>) {
    if j == 0 {
        neg_spec(grid_rmul_spec(x, g[0]))
    } else if j < 7 {
        (sub_spec(seq![g[j - 1].c0], grid_rmul_spec(x, g[j]).0), sub_spec(seq![g[j - 1].c1], grid_rmul_spec(x, g[j]).1))
    } else {
        (seq![g[6].c0], seq![g[6].c1])
    }
}

/// The flat 16-word state of `(z - x - Y s) G(z)` over F_p[Y].
pub open spec fn grid_state_spec(x: u32, g: Seq<Fp2>) -> Seq<Seq<u32>> {
    Seq::new(16, |i: int| if i % 2 == 0 { grid_coef_spec(x, g, i / 2).0 } else { grid_coef_spec(x, g, i / 2).1 })
}

/// The two words of `H(P) - (x + Y s)` as polynomials in `Y`.
pub open spec fn grid_residual_spec(pos: &Poseidon1, g: Seq<Fp2>, x: u32) -> (Seq<u32>, Seq<u32>) {
    let c = comp_poly_spec(pos.rc_model(), pos.mds_model(), pos.r_f as int, pos.r_p as int, grid_state_spec(x, g));
    (trim_spec(sub_spec(c[0], seq![x])), trim_spec(sub_spec(c[1], seq![0u32, 1u32])))
}

/// The candidate vector for the root `x + y s`.
pub open spec fn grid_candidate(x: u32, y: u32, g: Seq<Fp2>) -> Seq<u32> {
    flat_spec(root_first_spec(Fp2 { c0: x, c1: y }, g))
}

/// The seed of a fixed-cofactor case.
pub open spec fn grid_seed_spec(rf: usize, rp: usize, seed_idx: usize) -> int {
    0x501E_0000 + rf * 0x1_0000 + rp * 0x100 + seed_idx
}

// ---------------------------------------------------------------------------
// The state over F_p[Y]
// ---------------------------------------------------------------------------

/// The seed of a fixed-cofactor case.
pub fn grid_seed(rf: usize, rp: usize, seed_idx: usize) -> (s: u64)
    requires
        grid_seed_spec(rf, rp, seed_idx) <= u64::MAX,
    ensures
        s as int == grid_seed_spec(rf, rp, seed_idx),
{
    let rf64 = rf as u64;
    let rp64 = rp as u64;
    assert(rf64 < 0x1_0000_0000_0000);
    assert(rp64 < 0x100_0000_0000_0000);
    let a: u64 = rf64 << 16u64;
    let b: u64 = rp64 << 8u64;
    assert(a == rf64 * 0x1_0000) by (bit_vector)
        requires
            a == rf64 << 16u64,
            rf64 < 0x1_0000_0000_0000,
    ;
    assert(b == rp64 * 0x100) by (bit_vector)
        requires
            b == rp64 << 8u64,
            rp64 < 0x100_0000_0000_0000,
    ;
    0x501E_0000 + a + b + seed_idx as u64
}

/// The full cofactor of a seed: seven nonzero elements drawn from it.
pub fn full_cofactor(seed: u64) -> (g: [Fp2; 7])
    ensures
        fp2s_ok(g@),
        forall|j: int| 0 <= j < 7 ==> #[trigger] fp2_ok(g@[j]) && !(g@[j].c0 == 0 && g@[j].c1 == 0),
        forall|j: int| 0 <= j < 7 ==> #[trigger] g@[j] == crate::zerotest::nz_elem(seed, j as nat),
{
    let g = fixed_cofactor(seed);
    proof {
        assert forall|j: int| 0 <= j < 7 implies #[trigger] fp2_ok(g@[j]) && !(g@[j].c0 == 0 && g@[j].c1 == 0) by {
            assert(fp2_ok(g@[j]));
        }
    }
    g
}

/// `(x + Y s) g`.
pub fn root_mul_g_at_x(x: u32, g: Fp2) -> (r: (pl::Poly, pl::Poly))
    requires
        fp2_ok(g),
    ensures
        (r.0@, r.1@) == grid_rmul_spec(x, g),
        reduced(r.0@) && r.0.len() <= 2,
        reduced(r.1@) && r.1.len() <= 2,
{
    let mut a: Vec<u32> = Vec::new();
    a.push(fp_mul(x, g.c0));
    a.push(fp_mul(3, g.c1));
    let mut b: Vec<u32> = Vec::new();
    b.push(fp_mul(x, g.c1));
    b.push(g.c0);
    proof {
        assert(a@ =~= seq![((x as int * g.c0 as int) % modulus()) as u32, ((3 * g.c1 as int) % modulus()) as u32]);
        assert(b@ =~= seq![((x as int * g.c1 as int) % modulus()) as u32, g.c0]);
        lemma_trim(a@);
        lemma_trim(b@);
    }
    (pl::trim(&a), pl::trim(&b))
}

/// `-f`.
pub fn neg_poly(f: &[u32]) -> (r: pl::Poly)
    ensures
        r@ == scalar_spec(f@, P - 1),
        canon(r@),
        r.len() <= f.len(),
{
    proof {
        lemma_scalar_len(f@, P - 1);
    }
    pl::scalar(f, P - 1)
}

proof fn lemma_sub_const_ok(c: u32, m: Seq<u32>)
    requires
        c < P,
        reduced(m),
        m.len() <= 2,
    ensures
        reduced(sub_spec(seq![c], m)),
        sub_spec(seq![c], m).len() <= 2,
{
    lemma_trim(crate::poly_spec::from_fn(crate::poly_spec::max_len(seq![c], m), crate::poly_spec::sub_coefs(seq![c], m)));
    crate::poly_spec::lemma_ops_canon(seq![c], m, 0);
}

/// The symbolic root-first state for the root `x + Y s`.
pub fn root_first_state_at_x(x: u32, cofactor: &[Fp2; 7]) -> (out: Vec<pl::Poly>)
    requires
        fp2s_ok(cofactor@),
    ensures
        out.len() == 16,
        polys(out@) == grid_state_spec(x, cofactor@),
        polys_within(polys(out@), 2),
{
    let ghost g = cofactor@;
    let mut coeffs: Vec<(pl::Poly, pl::Poly)> = Vec::new();
    proof {
        assert(fp2_ok(g[0]));
    }
    let (r0, r1) = root_mul_g_at_x(x, cofactor[0]);
    proof {
        lemma_scalar_len(r0@, P - 1);
        lemma_scalar_len(r1@, P - 1);
    }
    coeffs.push((neg_poly(&r0), neg_poly(&r1)));
    let mut j: usize = 1;
    while j < ZT_D
        invariant
            g == cofactor@,
            fp2s_ok(g),
            1 <= j <= 7,
            coeffs.len() == j,
            forall|k: int| 0 <= k < j ==> #[trigger] fp2p(coeffs[k]) == grid_coef_spec(x, g, k),
            forall|k: int| 0 <= k < j ==> reduced(#[trigger] coeffs[k].0@) && coeffs[k].0@.len() <= 2 && reduced(coeffs[k].1@) && coeffs[k].1@.len() <= 2,
        decreases 7 - j,
    {
        proof {
            assert(fp2_ok(g[j as int]) && fp2_ok(g[j - 1]));
        }
        let (m0, m1) = root_mul_g_at_x(x, cofactor[j]);
        let mut k0: Vec<u32> = Vec::new();
        k0.push(cofactor[j - 1].c0);
        let mut k1: Vec<u32> = Vec::new();
        k1.push(cofactor[j - 1].c1);
        proof {
            assert(k0@ =~= seq![g[j - 1].c0]);
            assert(k1@ =~= seq![g[j - 1].c1]);
            lemma_sub_const_ok(g[j - 1].c0, m0@);
            lemma_sub_const_ok(g[j - 1].c1, m1@);
        }
        coeffs.push((pl::sub(&k0, &m0), pl::sub(&k1, &m1)));
        j += 1;
    }
    let mut t0: Vec<u32> = Vec::new();
    t0.push(cofactor[ZT_D - 1].c0);
    let mut t1: Vec<u32> = Vec::new();
    t1.push(cofactor[ZT_D - 1].c1);
    proof {
        assert(fp2_ok(g[6]));
        assert(t0@ =~= seq![g[6].c0]);
        assert(t1@ =~= seq![g[6].c1]);
        assert(reduced(t0@) && reduced(t1@));
    }
    coeffs.push((t0, t1));
    proof {
        assert(fp2p(coeffs[7]) == grid_coef_spec(x, g, 7));
        assert(reduced(coeffs[7].0@) && coeffs[7].0@.len() <= 2 && reduced(coeffs[7].1@) && coeffs[7].1@.len() <= 2);
    }
    let mut flat: Vec<pl::Poly> = Vec::new();
    let mut k: usize = 0;
    while k < 8
        invariant
            coeffs.len() == 8,
            forall|i: int| 0 <= i < 8 ==> #[trigger] fp2p(coeffs[i]) == grid_coef_spec(x, g, i),
            forall|i: int| 0 <= i < 8 ==> reduced(#[trigger] coeffs[i].0@) && coeffs[i].0@.len() <= 2 && reduced(coeffs[i].1@) && coeffs[i].1@.len() <= 2,
            k <= 8,
            flat.len() == 2 * k,
            forall|i: int| 0 <= i < 2 * k ==> #[trigger] flat[i]@ == grid_state_spec(x, g)[i],
            forall|i: int| 0 <= i < 2 * k ==> reduced(#[trigger] flat[i]@) && flat[i]@.len() <= 2,
        decreases 8 - k,
    {
        let c0 = coeffs[k].0.clone();
        let c1 = coeffs[k].1.clone();
        proof {
            assert(fp2p(coeffs[k as int]) == grid_coef_spec(x, g, k as int));
            assert(c0@ =~= coeffs[k as int].0@);
            assert(c1@ =~= coeffs[k as int].1@);
            assert((2 * k) % 2 == 0 && (2 * k) / 2 == k);
            assert((2 * k + 1) % 2 == 1 && (2 * k + 1) / 2 == k);
            assert(reduced(coeffs[k as int].0@));
        }
        flat.push(c0);
        flat.push(c1);
        k += 1;
    }
    proof {
        assert(polys(flat@) =~= grid_state_spec(x, g));
        assert forall|i: int| 0 <= i < polys(flat@).len() implies reduced(#[trigger] polys(flat@)[i]) && polys(flat@)[i].len() <= 2 by {
            assert(polys(flat@)[i] == flat[i]@);
        }
    }
    flat
}

/// The residual polynomials `H(P) - (x + Y s)`.
pub fn residual_polys_at_x(pos: &Poseidon1, cofactor: &[Fp2; 7], x: u32) -> (r: (pl::Poly, pl::Poly))
    requires
        scout_instance(pos),
        fp2s_ok(cofactor@),
        x < P,
    ensures
        (r.0@, r.1@) == grid_residual_spec(pos, cofactor@, x),
        reduced(r.0@),
        reduced(r.1@),
        r.0.len() <= 2 * pow(3, (pos.r_f + pos.r_p) as nat),
        r.1.len() <= 2 * pow(3, (pos.r_f + pos.r_p) as nat),
{
    let input = root_first_state_at_x(x, cofactor);
    let out = compression_hash_poly(pos, &input);
    let ghost bound = 2 * pow(3, (pos.r_f + pos.r_p) as nat);
    let mut kx: Vec<u32> = Vec::new();
    kx.push(x);
    let mut ky: Vec<u32> = Vec::new();
    ky.push(0);
    ky.push(1);
    proof {
        assert(reduced(polys(out@)[0]) && polys(out@)[0].len() <= bound);
        assert(reduced(polys(out@)[1]) && polys(out@)[1].len() <= bound);
        assert(polys(out@)[0] == out[0]@ && polys(out@)[1] == out[1]@);
        assert(kx@ =~= seq![x]);
        assert(ky@ =~= seq![0u32, 1u32]);
        lemma_pow_positive(3, (pos.r_f + pos.r_p) as nat);
        lemma_trim(crate::poly_spec::from_fn(crate::poly_spec::max_len(out[0]@, kx@), crate::poly_spec::sub_coefs(out[0]@, kx@)));
        lemma_trim(crate::poly_spec::from_fn(crate::poly_spec::max_len(out[1]@, ky@), crate::poly_spec::sub_coefs(out[1]@, ky@)));
        crate::poly_spec::lemma_ops_canon(out[0]@, kx@, 0);
        crate::poly_spec::lemma_ops_canon(out[1]@, ky@, 0);
    }
    let f0 = pl::sub(&out[0], &kx);
    let f1 = pl::sub(&out[1], &ky);
    proof {
        lemma_trim(f0@);
        lemma_trim(f1@);
    }
    (pl::trim(&f0), pl::trim(&f1))
}

/// `Res_Y` of the residual pair for the root `x + Y s`.
pub fn resultant_at_x(pos: &Poseidon1, cofactor: &[Fp2; 7], x: u32) -> (r: u32)
    requires
        scout_instance(pos),
        fp2s_ok(cofactor@),
        x < P,
    ensures
        r as int == res_spec(grid_residual_spec(pos, cofactor@, x).0, grid_residual_spec(pos, cofactor@, x).1),
        r < P,
{
    proof {
        lemma_pow_positive(3, (pos.r_f + pos.r_p) as nat);
    }
    let (f0, f1) = residual_polys_at_x(pos, cofactor, x);
    pl::resultant(&f0, &f1)
}

/// `Res_Y` at every sample `x`.
pub fn sample_resultants(pos: &Poseidon1, cofactor: &[Fp2; 7], xs: &[u32]) -> (ys: Vec<u32>)
    requires
        scout_instance(pos),
        fp2s_ok(cofactor@),
        reduced(xs@),
    ensures
        ys.len() == xs.len(),
        forall|i: int| 0 <= i < xs.len() ==> #[trigger] ys[i] as int
            == res_spec(grid_residual_spec(pos, cofactor@, xs[i]).0, grid_residual_spec(pos, cofactor@, xs[i]).1),
        reduced(ys@),
{
    let mut ys: Vec<u32> = Vec::new();
    let mut i: usize = 0;
    while i < xs.len()
        invariant
            scout_instance(pos),
            fp2s_ok(cofactor@),
            reduced(xs@),
            i <= xs.len(),
            ys.len() == i,
            forall|k: int| 0 <= k < i ==> #[trigger] ys[k] as int
                == res_spec(grid_residual_spec(pos, cofactor@, xs[k]).0, grid_residual_spec(pos, cofactor@, xs[k]).1),
            forall|k: int| 0 <= k < i ==> #[trigger] ys@[k] < P,
        decreases xs.len() - i,
    {
        proof {
            assert(xs@[i as int] < P);
        }
        let r = resultant_at_x(pos, cofactor, xs[i]);
        ys.push(r);
        i += 1;
    }
    ys
}

// ---------------------------------------------------------------------------
// Specialising Y
// ---------------------------------------------------------------------------

proof fn lemma_grid_rmul_eval(x: u32, g: Fp2, y: int)
    ensures
        eqm(peval(grid_rmul_spec(x, g).0, y), x * g.c0 + 3 * (y * g.c1)),
        eqm(peval(grid_rmul_spec(x, g).1, y), x * g.c1 + y * g.c0),
{
    let p = modulus();
    let a0 = ((x as int * g.c0 as int) % p) as u32;
    let b0 = ((3 * g.c1 as int) % p) as u32;
    let a1 = ((x as int * g.c1 as int) % p) as u32;
    lemma_peval_pair(a0, b0, y);
    lemma_peval_pair(a1, g.c0, y);
    lemma_eqm_mod(x * g.c0);
    lemma_eqm_mod(3 * g.c1);
    lemma_eqm_mod(x * g.c1);
    lemma_eqm_mul2(b0 as int, y, 3 * g.c1, y);
    lemma_mul_is_associative(3, g.c1 as int, y);
    lemma_mul_is_commutative(g.c1 as int, y);
    lemma_mul_is_commutative(g.c0 as int, y);
    lemma_eqm_add(a0 as int, x * g.c0, b0 * y, 3 * (y * g.c1));
    lemma_eqm_add(a1 as int, x * g.c1, g.c0 * y, y * g.c0);
}

proof fn lemma_grid_coef_specialises(x: u32, y: u32, g: Seq<Fp2>, j: int)
    requires
        x < P,
        y < P,
        g.len() == 7,
        fp2s_ok(g),
        0 <= j < 8,
    ensures
        peval(grid_coef_spec(x, g, j).0, y as int) % modulus() == root_first_spec(Fp2 { c0: x, c1: y }, g)[j].c0 as int,
        peval(grid_coef_spec(x, g, j).1, y as int) % modulus() == root_first_spec(Fp2 { c0: x, c1: y }, g)[j].c1 as int,
{
    let p = modulus();
    let r = Fp2 { c0: x, c1: y };
    let yi = y as int;
    let cs = root_first_spec(r, g);
    if j == 0 {
        let gj = g[0];
        let m = grid_rmul_spec(x, gj);
        lemma_grid_rmul_eval(x, gj, yi);
        lemma_peval_scalar(m.0, P - 1, yi);
        lemma_peval_scalar(m.1, P - 1, yi);
        lemma_eqm_neg_one(peval(m.0, yi));
        lemma_eqm_neg_one(peval(m.1, yi));
        lemma_eqm_mul_left(-1, peval(m.0, yi), x * gj.c0 + 3 * (y * gj.c1));
        lemma_eqm_mul_left(-1, peval(m.1, yi), x * gj.c1 + y * gj.c0);
        let n = fp2_neg_spec(r);
        assert(n.c0 as int == (0 - x) % p && n.c1 as int == (0 - y) % p);
        lemma_eqm_mod(-(x as int));
        lemma_eqm_mod(-(y as int));
        lemma_eqm_mul2(n.c0 as int, gj.c0 as int, -(x as int), gj.c0 as int);
        lemma_eqm_mul2(n.c1 as int, gj.c1 as int, -(y as int), gj.c1 as int);
        lemma_eqm_mul2(n.c0 as int, gj.c1 as int, -(x as int), gj.c1 as int);
        lemma_eqm_mul2(n.c1 as int, gj.c0 as int, -(y as int), gj.c0 as int);
        lemma_mul_unary_negation(x as int, gj.c0 as int);
        lemma_mul_unary_negation(y as int, gj.c1 as int);
        lemma_mul_unary_negation(x as int, gj.c1 as int);
        lemma_mul_unary_negation(y as int, gj.c0 as int);
        lemma_eqm_mul_left(3, n.c1 * gj.c1, -(y * gj.c1));
        lemma_eqm_add(n.c0 * gj.c0, -(x * gj.c0), 3 * (n.c1 * gj.c1), 3 * (-(y * gj.c1)));
        lemma_eqm_add(n.c0 * gj.c1, -(x * gj.c1), n.c1 * gj.c0, -(y * gj.c0));
        lemma_eqm_mod(n.c0 * gj.c0 + 3 * (n.c1 * gj.c1));
        lemma_eqm_mod(n.c0 * gj.c1 + n.c1 * gj.c0);
        assert(fp2_ok(cs[0]));
    } else if j < 7 {
        let gj = g[j];
        let c = g[j - 1];
        assert(fp2_ok(c) && fp2_ok(gj));
        let m = grid_rmul_spec(x, gj);
        lemma_grid_rmul_eval(x, gj, yi);
        let mm = fp2_mul_spec(r, gj);
        lemma_eqm_mod(x * gj.c0 + 3 * (y * gj.c1));
        lemma_eqm_mod(x * gj.c1 + y * gj.c0);
        let k0 = seq![c.c0];
        let k1 = seq![c.c1];
        assert(k0.drop_first() =~= Seq::<u32>::empty());
        assert(k1.drop_first() =~= Seq::<u32>::empty());
        assert(peval(Seq::<u32>::empty(), yi) == 0);
        lemma_mul_basics(yi);
        assert(peval(k0, yi) == c.c0 && peval(k1, yi) == c.c1);
        lemma_peval_sub(k0, m.0, yi);
        lemma_peval_sub(k1, m.1, yi);
        lemma_eqm_sub(c.c0 as int, peval(k0, yi), mm.c0 as int, peval(m.0, yi));
        lemma_eqm_sub(c.c1 as int, peval(k1, yi), mm.c1 as int, peval(m.1, yi));
        lemma_eqm_mod(c.c0 - mm.c0);
        lemma_eqm_mod(c.c1 - mm.c1);
        assert(fp2_ok(cs[j]));
    } else {
        let c = g[6];
        assert(fp2_ok(c));
        let k0 = seq![c.c0];
        let k1 = seq![c.c1];
        assert(k0.drop_first() =~= Seq::<u32>::empty());
        assert(k1.drop_first() =~= Seq::<u32>::empty());
        assert(peval(Seq::<u32>::empty(), yi) == 0);
        lemma_mul_basics(yi);
        lemma_small_mod(c.c0 as nat, P as nat);
        lemma_small_mod(c.c1 as nat, P as nat);
    }
}

/// Evaluating the symbolic state at `Y = y` gives the flat vector of
/// `(z - x - y s) G(z)`.
pub proof fn lemma_grid_state_specialises(x: u32, y: u32, g: Seq<Fp2>)
    requires
        x < P,
        y < P,
        g.len() == 7,
        fp2s_ok(g),
    ensures
        forall|i: int| 0 <= i < 16 ==> #[trigger] (peval(grid_state_spec(x, g)[i], y as int) % modulus()) == grid_candidate(x, y, g)[i] as int,
{
    assert forall|i: int| 0 <= i < 16 implies #[trigger] (peval(grid_state_spec(x, g)[i], y as int) % modulus()) == grid_candidate(x, y, g)[i] as int by {
        lemma_grid_coef_specialises(x, y, g, i / 2);
    }
}

/// Evaluating the residual polynomials at `Y = y` gives the hash point of the
/// candidate for the root `x + y s`, minus that root.
pub proof fn lemma_grid_residuals_specialise(pos: &Poseidon1, g: Seq<Fp2>, x: u32, y: u32)
    requires
        pos.wf(),
        x < P,
        y < P,
        g.len() == 7,
        fp2s_ok(g),
    ensures
        crate::rootvar::fp2p_at(grid_residual_spec(pos, g, x), y as int) == fp2_sub_spec(
            hash_point_model(pos.rc_model(), pos.mds_model(), pos.r_f as int, pos.r_p as int, grid_candidate(x, y, g)),
            Fp2 { c0: x, c1: y },
        ),
{
    let p = modulus();
    let rcs = pos.rc_model();
    let m = pos.mds_model();
    let rf = pos.r_f as int;
    let rp = pos.r_p as int;
    let yi = y as int;
    let input = grid_state_spec(x, g);
    let flat = grid_candidate(x, y, g);
    let cs = root_first_spec(Fp2 { c0: x, c1: y }, g);
    lemma_grid_state_specialises(x, y, g);
    assert forall|j: int| 0 <= j < 8 implies #[trigger] fp2_ok(cs[j]) by {
        if j == 7 {
            assert(fp2_ok(g[6]));
        }
    }
    assert forall|i: int| 0 <= i < 16 implies #[trigger] flat[i] < P by {
        assert(fp2_ok(cs[i / 2]));
    }
    lemma_comp_specialises(pos, input, flat, yi);
    let comp = comp_poly_spec(rcs, m, rf, rp, input);
    let out = compression_model(rcs, m, rf, rp, flat.map_values(|v: u32| (v % P) as u32));
    let h = hash_point_model(rcs, m, rf, rp, flat);
    assert(h.c0 as int == out[0] && h.c1 as int == out[1]);
    assert((peval(comp[0], yi) % p) == out[0] && (peval(comp[1], yi) % p) == out[1]);
    let kx = seq![x];
    let ky = seq![0u32, 1u32];
    assert(kx.drop_first() =~= Seq::<u32>::empty());
    assert(ky.drop_first() =~= seq![1u32]);
    assert(ky.drop_first().drop_first() =~= Seq::<u32>::empty());
    assert(peval(Seq::<u32>::empty(), yi) == 0);
    lemma_mul_basics(yi);
    assert(peval(seq![1u32], yi) == 1);
    assert(peval(kx, yi) == x && peval(ky, yi) == y);
    lemma_sub_specialises(comp[0], kx, yi, out[0], x as int);
    lemma_sub_specialises(comp[1], ky, yi, out[1], y as int);
}

/// A common root `y` of the two residual polynomials at `x` gives a
/// candidate for the root `x + y s` that passes the zero test, when the
/// cofactor is nonzero.
pub proof fn lemma_grid_common_root_wins(pos: &Poseidon1, g: Seq<Fp2>, x: u32, y: u32)
    requires
        pos.wf(),
        x < P,
        y < P,
        g.len() == 7,
        fp2s_ok(g),
        exists|k: int| 0 <= k < 7 && !#[trigger] crate::zerotest::fp2_is_zero(g[k]),
        peval(grid_residual_spec(pos, g, x).0, y as int) % modulus() == 0,
        peval(grid_residual_spec(pos, g, x).1, y as int) % modulus() == 0,
    ensures
        is_zero_residual(residual_spec(pos, grid_candidate(x, y, g))),
{
    lemma_grid_residuals_specialise(pos, g, x, y);
    assert forall|k: int| 0 <= k < 7 implies #[trigger] fp2_ok(g[k]) by {}
    lemma_root_first_wins(pos, Fp2 { c0: x, c1: y }, g);
}

// ---------------------------------------------------------------------------
// The search
// ---------------------------------------------------------------------------

/// The sampled resultants at `x = 1, ..., n`.
pub open spec fn grid_samples(pos: &Poseidon1, g: Seq<Fp2>, n: int) -> Seq<u32> {
    Seq::new(n as nat, |i: int| res_spec(grid_residual_spec(pos, g, (i + 1) as u32).0, grid_residual_spec(pos, g, (i + 1) as u32).1) as u32)
}

/// The grid `1, ..., n`.
pub open spec fn grid_xs(n: int) -> Seq<u32> {
    Seq::new(n as nat, |i: int| (i + 1) as u32)
}

/// The interpolant agrees with a fresh resultant at `X = x`.
pub open spec fn grid_guard_agrees(pos: &Poseidon1, g: Seq<Fp2>, e: Seq<u32>, x: int) -> bool {
    peval(e, x) % modulus() == res_spec(grid_residual_spec(pos, g, x as u32).0, grid_residual_spec(pos, g, x as u32).1)
}

/// The interpolant agrees with fresh resultants at `from, ..., from + n - 1`.
pub open spec fn grid_guards_agree(pos: &Poseidon1, g: Seq<Fp2>, e: Seq<u32>, from: int, n: int) -> bool {
    forall|h: int| 0 <= h < n ==> #[trigger] grid_guard_agrees(pos, g, e, from + h)
}

/// Samples `Res_Y` at `x = 1, ..., degree + 1`, interpolates, and keeps the
/// result only if it agrees with fresh resultants at the next eight points.
pub fn resultant_poly(pos: &Poseidon1, cofactor: &[Fp2; 7], degree: usize) -> (r: Option<pl::Poly>)
    requires
        scout_instance(pos),
        fp2s_ok(cofactor@),
        degree < 8388600,
    ensures
        r.is_some() <==> grid_guards_agree(
            pos, cofactor@, elim_spec(grid_xs(degree + 1), grid_samples(pos, cofactor@, degree + 1)), degree + 2, 8),
        r matches Some(e) ==> e@ == elim_spec(grid_xs(degree + 1), grid_samples(pos, cofactor@, degree + 1)),
        r matches Some(e) ==> canon(e@) && e.len() <= degree + 1,
{
    let n = degree + 1;
    let xs = sample_grid(n);
    let ys = sample_resultants(pos, cofactor, &xs);
    proof {
        assert(xs@ =~= grid_xs(n as int));
        assert forall|i: int| 0 <= i < n implies #[trigger] ys@[i] == grid_samples(pos, cofactor@, n as int)[i] by {
            assert(xs[i] == i + 1);
        }
        assert(ys@ =~= grid_samples(pos, cofactor@, n as int));
    }
    let r_poly = pl::interpolate(&xs, &ys);
    let ghost e = r_poly@;
    assert(e == elim_spec(grid_xs(n as int), grid_samples(pos, cofactor@, n as int)));
    let mut stable = true;
    let mut g: usize = 0;
    while g < 8
        invariant
            scout_instance(pos),
            fp2s_ok(cofactor@),
            r_poly@ == e,
            canon(e),
            n == degree + 1,
            n < 8388601,
            g <= 8,
            stable == grid_guards_agree(pos, cofactor@, e, n + 1, g as int),
        decreases 8 - g,
    {
        let x = (n + 1 + g) as u32;
        let v = pl::eval(&r_poly, x);
        let w = resultant_at_x(pos, cofactor, x);
        if v != w {
            stable = false;
        }
        proof {
            assert(grid_guard_agrees(pos, cofactor@, e, n + 1 + g) == (v == w));
            if stable {
                assert forall|h: int| 0 <= h < g + 1 implies #[trigger] grid_guard_agrees(pos, cofactor@, e, n + 1 + h) by {}
            }
        }
        g += 1;
    }
    if stable {
        Some(r_poly)
    } else {
        None
    }
}

/// The residual pair at `X = x` for the canonical instance with `rf`, `rp` rounds.
pub open spec fn canonical_grid_residuals(rf: usize, rp: usize, g: Seq<Fp2>, x: u32) -> (Seq<u32>, Seq<u32>) {
    let c = comp_poly_spec(crate::canonical_rcs(3, rf as nat, rp as nat), crate::canonical_mds(), rf as int, rp as int, grid_state_spec(x, g));
    (trim_spec(sub_spec(c[0], seq![x])), trim_spec(sub_spec(c[1], seq![0u32, 1u32])))
}

/// The eliminant of the fixed-cofactor search: interpolated through `Res_Y`
/// of the canonical residual pair at `X = 1, ..., 3^(2 rf + rp) + 1`.
pub open spec fn canonical_grid_elim(rf: usize, rp: usize, g: Seq<Fp2>) -> Seq<u32> {
    let n = pow(3, (2 * rf + rp) as nat) + 1;
    elim_spec(
        grid_xs(n),
        Seq::new(
            n as nat,
            |i: int| res_spec(canonical_grid_residuals(rf, rp, g, (i + 1) as u32).0, canonical_grid_residuals(rf, rp, g, (i + 1) as u32).1) as u32,
        ),
    )
}

/// The eliminant takes the fresh canonical resultant at `X = from, ..., from + n - 1`.
pub open spec fn canonical_grid_guards_agree(rf: usize, rp: usize, g: Seq<Fp2>, e: Seq<u32>, from: int, n: int) -> bool {
    forall|h: int| 0 <= h < n ==> #[trigger] peval(e, from + h) % modulus() == res_spec(
        canonical_grid_residuals(rf, rp, g, (from + h) as u32).0,
        canonical_grid_residuals(rf, rp, g, (from + h) as u32).1,
    )
}

/// `x` is a root of the eliminant `e`, `y` a common root of the residual pair
/// at `x` (not both zero), and the candidate with root `x + y s` passes the
/// zero test.
#[verifier::opaque]
pub open spec fn grid_witness(pos: &Poseidon1, g: Seq<Fp2>, e: Seq<u32>, x: u32, y: u32) -> bool {
    &&& x < P
    &&& y < P
    &&& peval(e, x as int) % modulus() == 0
    &&& !(grid_residual_spec(pos, g, x).0.len() == 0 && grid_residual_spec(pos, g, x).1.len() == 0)
    &&& peval(grid_residual_spec(pos, g, x).0, y as int) % modulus() == 0
    &&& peval(grid_residual_spec(pos, g, x).1, y as int) % modulus() == 0
    &&& is_zero_residual(residual_spec(pos, grid_candidate(x, y, g)))
}

/// `grid_witness` for the canonical instance with `rf`, `rp` rounds.
#[verifier::opaque]
pub open spec fn canonical_grid_witness(rf: usize, rp: usize, g: Seq<Fp2>, e: Seq<u32>, x: u32, y: u32) -> bool {
    &&& x < P
    &&& y < P
    &&& peval(e, x as int) % modulus() == 0
    &&& !(canonical_grid_residuals(rf, rp, g, x).0.len() == 0 && canonical_grid_residuals(rf, rp, g, x).1.len() == 0)
    &&& peval(canonical_grid_residuals(rf, rp, g, x).0, y as int) % modulus() == 0
    &&& peval(canonical_grid_residuals(rf, rp, g, x).1, y as int) % modulus() == 0
    &&& passes_canonical(rf, rp, grid_candidate(x, y, g))
}

/// On the canonical instance the search's specs are their canonical forms.
proof fn lemma_canonical_grid(pos: &Poseidon1, rf: usize, rp: usize, g: Seq<Fp2>, e: Seq<u32>, from: int, n: int)
    requires
        pos.rc_model() == crate::canonical_rcs(3, rf as nat, rp as nat),
        pos.mds_model() == crate::canonical_mds(),
        pos.r_f == rf,
        pos.r_p == rp,
        n >= 0,
    ensures
        grid_guards_agree(pos, g, e, from, n) == canonical_grid_guards_agree(rf, rp, g, e, from, n),
        elim_spec(grid_xs(pow(3, (2 * rf + rp) as nat) + 1), grid_samples(pos, g, pow(3, (2 * rf + rp) as nat) + 1))
            == canonical_grid_elim(rf, rp, g),
{
    assert forall|x: u32| #[trigger] grid_residual_spec(pos, g, x) == canonical_grid_residuals(rf, rp, g, x) by {}
    let m = pow(3, (2 * rf + rp) as nat) + 1;
    assert(grid_samples(pos, g, m) =~= Seq::new(
        m as nat,
        |i: int| res_spec(canonical_grid_residuals(rf, rp, g, (i + 1) as u32).0, canonical_grid_residuals(rf, rp, g, (i + 1) as u32).1) as u32,
    ));
    if grid_guards_agree(pos, g, e, from, n) {
        assert forall|h: int| 0 <= h < n implies #[trigger] peval(e, from + h) % modulus() == res_spec(
            canonical_grid_residuals(rf, rp, g, (from + h) as u32).0,
            canonical_grid_residuals(rf, rp, g, (from + h) as u32).1,
        ) by {
            assert(grid_guard_agrees(pos, g, e, from + h));
        }
    }
    if canonical_grid_guards_agree(rf, rp, g, e, from, n) {
        assert forall|h: int| 0 <= h < n implies #[trigger] grid_guard_agrees(pos, g, e, from + h) by {
            assert(peval(e, from + h) % modulus() == res_spec(
                canonical_grid_residuals(rf, rp, g, (from + h) as u32).0,
                canonical_grid_residuals(rf, rp, g, (from + h) as u32).1,
            ));
        }
    }
}

/// On the canonical instance the search's witness is its canonical form.
proof fn lemma_canonical_grid_witness(pos: &Poseidon1, rf: usize, rp: usize, g: Seq<Fp2>, e: Seq<u32>)
    requires
        pos.rc_model() == crate::canonical_rcs(3, rf as nat, rp as nat),
        pos.mds_model() == crate::canonical_mds(),
        pos.r_f == rf,
        pos.r_p == rp,
    ensures
        forall|x: u32, y: u32|
            #![trigger grid_witness(pos, g, e, x, y)]
            #![trigger canonical_grid_witness(rf, rp, g, e, x, y)]
            grid_witness(pos, g, e, x, y) == canonical_grid_witness(rf, rp, g, e, x, y),
{
    reveal(grid_witness);
    reveal(canonical_grid_witness);
    assert forall|x: u32| #[trigger] grid_residual_spec(pos, g, x) == canonical_grid_residuals(rf, rp, g, x) by {}
    assert forall|p: Seq<u32>| #[trigger] residual_spec(pos, p) == crate::zerotest::residual_model(crate::canonical_rcs(3, rf as nat, rp as nat), crate::canonical_mds(), rf as int, rp as int, p) by {}
}

/// Back-substitution at one root `x` of the eliminant: the common roots `y`
/// of the residual pair in increasing order, each counted, until a candidate
/// passes the zero test.
fn grid_at_x(
    pos: &Poseidon1,
    cofactor: &[Fp2; 7],
    x: u32,
    y_roots_seen: &mut usize,
    Ghost(e): Ghost<Seq<u32>>,
) -> (r: Option<(Fp2, [u32; 16])>)
    requires
        scout_instance(pos),
        fp2s_ok(cofactor@),
        x < P,
        peval(e, x as int) % modulus() == 0,
    ensures
        r matches Some((root, p_hat)) ==> grid_witness(pos, cofactor@, e, x, root.c1) && root.c0 == x && root.c1 < P
            && p_hat@ == grid_candidate(x, root.c1, cofactor@)
            && is_zero_residual(residual_spec(pos, p_hat@)),
        r is None ==> forall|y: u32| !#[trigger] grid_witness(pos, cofactor@, e, x, y),
{
    proof {
        reveal(grid_witness);
        lemma_pow_positive(3, (pos.r_f + pos.r_p) as nat);
    }
    let (f0, f1) = residual_polys_at_x(pos, cofactor, x);
    let gg = pl::gcd(&f0, &f1);
    let ys_here = pl::roots(&gg);
    proof {
        if f0@.len() == 0 && f1@.len() == 0 {
            lemma_trim(gg@);
            assert(ys_here.len() == 0);
        }
    }
    let mut k: usize = 0;
    while k < ys_here.len()
        invariant
            scout_instance(pos),
            fp2s_ok(cofactor@),
            x < P,
            peval(e, x as int) % modulus() == 0,
            (f0@, f1@) == grid_residual_spec(pos, cofactor@, x),
            divides(gg@, f0@),
            divides(gg@, f1@),
            f0@.len() == 0 && f1@.len() == 0 ==> ys_here.len() == 0,
            k <= ys_here.len(),
            forall|j: int| 0 <= j < ys_here.len() ==> #[trigger] ys_here[j] < P,
            forall|j: int| 0 <= j < ys_here.len() ==> #[trigger] (peval(gg@, ys_here[j] as int) % modulus()) == 0,
            forall|j: int| 0 <= j < k ==> !#[trigger] grid_witness(pos, cofactor@, e, x, ys_here@[j]),
        decreases ys_here.len() - k,
    {
        let y = ys_here[k];
        proof {
            assert(ys_here[k as int] < P);
            assert((peval(gg@, y as int) % modulus()) == 0);
            lemma_root_of_multiple(gg@, f0@, y as int);
            lemma_root_of_multiple(gg@, f1@, y as int);
        }
        if *y_roots_seen < usize::MAX {
            *y_roots_seen = *y_roots_seen + 1;
        }
        let root = Fp2::new(x, y);
        proof {
            lemma_small_mod(x as nat, P as nat);
            lemma_small_mod(y as nat, P as nat);
            assert(root == (Fp2 { c0: x, c1: y }));
        }
        let coeffs = crate::zerotest::root_first_coeffs(root, cofactor);
        let p_hat = crate::zerotest::flatten_coeffs(&coeffs);
        if crate::zerotest::verify_zerotest(pos, &p_hat) {
            proof {
                reveal(grid_witness);
            }
            return Some((root, p_hat));
        }
        proof {
            reveal(grid_witness);
            assert(!grid_witness(pos, cofactor@, e, x, ys_here@[k as int]));
        }
        k += 1;
    }
    proof {
        reveal(grid_witness);
        assert forall|yy: u32| !#[trigger] grid_witness(pos, cofactor@, e, x, yy) by {
            if grid_witness(pos, cofactor@, e, x, yy) {
                crate::poly_divides::lemma_common_root(f0@, f1@, gg@, yy as int);
                if gg.len() == 0 {
                    assert(gg@ =~= Seq::<u32>::empty());
                    crate::poly_divides::lemma_divided_by_zero(f0@);
                    crate::poly_divides::lemma_divided_by_zero(f1@);
                    let c = comp_poly_spec(pos.rc_model(), pos.mds_model(), pos.r_f as int, pos.r_p as int, grid_state_spec(x, cofactor@));
                    lemma_trim(sub_spec(c[0], seq![x]));
                    lemma_trim(sub_spec(c[1], seq![0u32, 1u32]));
                    crate::poly_spec::lemma_trim_canon(f0@);
                    crate::poly_spec::lemma_trim_canon(f1@);
                }
                crate::poly_spec::lemma_trim_canon(gg@);
                assert(ys_here@.contains(yy));
                let j = choose|j: int| 0 <= j < ys_here.len() && ys_here@[j] == yy;
                assert(!grid_witness(pos, cofactor@, e, x, ys_here@[j]));
            }
        }
    }
    None
}

/// A fixed-cofactor hit.
#[derive(Clone, Copy, Debug)]
pub struct GridHit {
    pub seed: u64,
    pub root: Fp2,
    pub p_hat: [u32; 16],
    pub elim_degree: i64,
    pub x_roots: usize,
    pub y_roots_seen: usize,
}

/// What one seed of the fixed-cofactor search found.
#[derive(Clone, Copy, Debug)]
pub struct GridSeedReport {
    pub hit: Option<GridHit>,
    pub cofactor: [Fp2; 7],
    /// The interpolant passed its guard points.
    pub stable: bool,
    pub elim_degree: i64,
    pub x_roots: usize,
    pub y_roots_seen: usize,
}

/// One seed of the fixed-cofactor search: interpolate the eliminant, then
/// back-substitute every root `x` and every common root `y` of the residual
/// pair at `x`; the first candidate the zero test accepts is the hit.
pub fn solve_grid_seed(rf: usize, rp: usize, seed_idx: usize) -> (rep: GridSeedReport)
    requires
        scout_rounds(rf, rp),
        grid_seed_spec(rf, rp, seed_idx) <= u64::MAX,
    ensures
        fp2s_ok(rep.cofactor@),
        rep.cofactor@ == crate::rootvar::fixed_cofactor_spec(grid_seed_spec(rf, rp, seed_idx) as u64),
        rep.stable == canonical_grid_guards_agree(
            rf, rp, rep.cofactor@, canonical_grid_elim(rf, rp, rep.cofactor@), pow(3, (2 * rf + rp) as nat) + 2, 8),
        rep.stable ==> rep.elim_degree as int == degree(canonical_grid_elim(rf, rp, rep.cofactor@)),
        rep.stable ==> rep.x_roots as int == crate::rootvar::root_count(canonical_grid_elim(rf, rp, rep.cofactor@)),
        rep.hit matches Some(h) ==> {
            &&& h.seed as int == grid_seed_spec(rf, rp, seed_idx)
            &&& h.elim_degree == rep.elim_degree
            &&& h.x_roots == rep.x_roots
            &&& h.y_roots_seen == rep.y_roots_seen
            &&& h.root.c0 < P && h.root.c1 < P
            &&& h.p_hat@ == grid_candidate(h.root.c0, h.root.c1, rep.cofactor@)
            &&& passes_canonical(rf, rp, h.p_hat@)
            &&& canonical_grid_witness(rf, rp, rep.cofactor@, canonical_grid_elim(rf, rp, rep.cofactor@), h.root.c0, h.root.c1)
        },
        rep.hit is Some ==> rep.stable,
        rep.hit is None && rep.stable && degree(canonical_grid_elim(rf, rp, rep.cofactor@)) >= 0 ==> forall|x: u32, y: u32|
            !#[trigger] canonical_grid_witness(rf, rp, rep.cofactor@, canonical_grid_elim(rf, rp, rep.cofactor@), x, y),
{
    proof {
        lemma_pow3_fits(rf, rp);
    }
    let pos = Poseidon1::new_canonical(3, 16, rf, rp);
    proof {
        lemma_instance_ok(&pos, rf, rp);
    }
    let seed = grid_seed(rf, rp, seed_idx);
    let cofactor = fixed_cofactor(seed);
    let deg = expected_degree(rf, rp);
    let ghost e = canonical_grid_elim(rf, rp, cofactor@);
    proof {
        lemma_canonical_grid(&pos, rf, rp, cofactor@, e, deg + 2, 8);
    }
    let r_poly = match resultant_poly(&pos, &cofactor, deg) {
        Some(r) => r,
        None => {
            return GridSeedReport { hit: None, cofactor, stable: false, elim_degree: 0, x_roots: 0, y_roots_seen: 0 };
        },
    };
    let elim_degree = pl::deg(&r_poly);
    let x_roots = pl::roots(&r_poly);
    proof {
        if degree(e) < 0 {
            assert(x_roots.len() == 0);
        }
    }
    let mut y_roots_seen: usize = 0;
    let mut i: usize = 0;
    while i < x_roots.len()
        invariant
            scout_instance(&pos),
            pos.rc_model() == crate::canonical_rcs(3, rf as nat, rp as nat),
            pos.mds_model() == crate::canonical_mds(),
            pos.r_f == rf,
            pos.r_p == rp,
            fp2s_ok(cofactor@),
            seed as int == grid_seed_spec(rf, rp, seed_idx),
            cofactor@ == crate::rootvar::fixed_cofactor_spec(seed),
            r_poly@ == e,
            e == canonical_grid_elim(rf, rp, cofactor@),
            canonical_grid_guards_agree(rf, rp, cofactor@, e, pow(3, (2 * rf + rp) as nat) + 2, 8),
            elim_degree as int == degree(e),
            x_roots.len() as int == crate::rootvar::root_count(e),
            i <= x_roots.len(),
            forall|k: int| 0 <= k < x_roots.len() ==> #[trigger] x_roots[k] < P,
            forall|k: int| 0 <= k < x_roots.len() ==> #[trigger] (peval(e, x_roots[k] as int) % modulus()) == 0,
            degree(e) >= 0 ==> forall|x: u32| x < P && peval(e, x as int) % modulus() == 0 ==> #[trigger] x_roots@.contains(x),
            forall|k: int, y: u32| 0 <= k < i ==> !#[trigger] grid_witness(&pos, cofactor@, e, x_roots@[k], y),
        decreases x_roots.len() - i,
    {
        let x = x_roots[i];
        proof {
            assert(x_roots[i as int] < P);
            assert((peval(e, x_roots[i as int] as int) % modulus()) == 0);
        }
        match grid_at_x(&pos, &cofactor, x, &mut y_roots_seen, Ghost(e)) {
            Some((root, p_hat)) => {
                let hit = GridHit { seed, root, p_hat, elim_degree, x_roots: x_roots.len(), y_roots_seen };
                proof {
                    lemma_canonical_grid_witness(&pos, rf, rp, cofactor@, e);
                    assert(canonical_grid_witness(rf, rp, cofactor@, e, x, root.c1));
                }
                return GridSeedReport {
                    hit: Some(hit),
                    cofactor,
                    stable: true,
                    elim_degree,
                    x_roots: x_roots.len(),
                    y_roots_seen,
                };
            },
            None => {},
        }
        proof {
            assert forall|kk: int, yy: u32| 0 <= kk < i + 1 implies !#[trigger] grid_witness(&pos, cofactor@, e, x_roots@[kk], yy) by {
                if kk == i {
                    assert(!grid_witness(&pos, cofactor@, e, x, yy));
                }
            }
        }
        i += 1;
    }
    proof {
        lemma_canonical_grid_witness(&pos, rf, rp, cofactor@, e);
        if degree(e) >= 0 {
            assert forall|xx: u32, yy: u32| !#[trigger] canonical_grid_witness(rf, rp, cofactor@, e, xx, yy) by {
                if canonical_grid_witness(rf, rp, cofactor@, e, xx, yy) {
                    assert(grid_witness(&pos, cofactor@, e, xx, yy));
                    reveal(grid_witness);
                    assert(x_roots@.contains(xx));
                    let kk = choose|kk: int| 0 <= kk < x_roots.len() && x_roots@[kk] == xx;
                    assert(!grid_witness(&pos, cofactor@, e, x_roots@[kk], yy));
                }
            }
        }
    }
    GridSeedReport { hit: None, cofactor, stable: true, elim_degree, x_roots: x_roots.len(), y_roots_seen }
}

} // verus!
