//! CICO-2 algebraic attack on Poseidon1 (permutation with initial linear
//! layer), through the permutation run over F_p[X].
//!
//! * `perm_plus_linear_poly`: the permutation on a state of polynomials.
//! * `solve_cico2`: resultant route with two free variables.
//! * `solve_cico2_gcd`: GCD route along a line of inputs.
use vstd::arithmetic::div_mod::*;
use vstd::arithmetic::mul::*;
use vstd::arithmetic::power::*;
use vstd::arithmetic::power2::*;
use vstd::prelude::*;

use crate::field::modulus;
use crate::poly as pl;
use crate::poly::{splitmix_advance, splitmix_mix};
use crate::poly_ring::{lemma_add_empty_right, lemma_mul_spec_len};
use crate::poly_spec::{
    add_coefs, add_spec, canon, coef, from_fn, lemma_add_spec_coef, lemma_ops_canon, lemma_trim,
    lemma_trim_canon, lemma_trimmed_eq, max_len, mul_spec, reduced, scalar_coefs, scalar_spec,
    trim_spec,
};
use crate::poly_eval::{lemma_peval_add, lemma_peval_mul, lemma_peval_scalar};
use crate::poly_spec::{degree, peval, res_spec};
use crate::poseidon_spec::{add_rc, dot, full_round, mds_layer, partial_round, poseidon_perm, rounds, sbox};
use crate::{cico_output, verify_cico, Poseidon1, CICO_C1, CICO_C2, P};

verus! {

const PU64: u64 = 2130706433;

// ---------------------------------------------------------------------------
// The permutation over F_p[X]
// ---------------------------------------------------------------------------

/// `f^3`.
pub open spec fn cube_poly(f: Seq<u32>) -> Seq<u32> {
    mul_spec(mul_spec(f, f), f)
}

/// `sum_{j < n} row[j] * s[j]`, accumulated in order.
pub open spec fn poly_dot(row: Seq<u32>, s: Seq<Seq<u32>>, n: int) -> Seq<u32>
    decreases n,
{
    if n <= 0 {
        Seq::empty()
    } else {
        add_spec(poly_dot(row, s, n - 1), scalar_spec(s[n - 1], row[n - 1] as int))
    }
}

/// The linear layer on a state of polynomials.
pub open spec fn poly_mds(m: Seq<Seq<u32>>, s: Seq<Seq<u32>>) -> Seq<Seq<u32>> {
    Seq::new(s.len(), |i: int| poly_dot(m[i], s, s.len() as int))
}

/// Round constants added, as constant polynomials.
pub open spec fn poly_add_rc(s: Seq<Seq<u32>>, rc: Seq<u32>) -> Seq<Seq<u32>> {
    Seq::new(s.len(), |i: int| add_spec(s[i], seq![rc[i]]))
}

pub open spec fn poly_full_round(m: Seq<Seq<u32>>, rc: Seq<u32>, s: Seq<Seq<u32>>) -> Seq<Seq<u32>> {
    let a = poly_add_rc(s, rc);
    poly_mds(m, Seq::new(s.len(), |i: int| cube_poly(a[i])))
}

pub open spec fn poly_partial_round(m: Seq<Seq<u32>>, rc: Seq<u32>, s: Seq<Seq<u32>>) -> Seq<Seq<u32>> {
    let a = poly_add_rc(s, rc);
    poly_mds(m, a.update(0, cube_poly(a[0])))
}

/// Rounds `0..k` over F_p[X].
pub open spec fn poly_rounds(
    rcs: Seq<Seq<u32>>,
    m: Seq<Seq<u32>>,
    half: int,
    r_p: int,
    s: Seq<Seq<u32>>,
    k: int,
) -> Seq<Seq<u32>>
    decreases k,
{
    if k <= 0 {
        s
    } else {
        let prev = poly_rounds(rcs, m, half, r_p, s, k - 1);
        if half <= k - 1 < half + r_p {
            poly_partial_round(m, rcs[k - 1], prev)
        } else {
            poly_full_round(m, rcs[k - 1], prev)
        }
    }
}

/// The permutation with initial linear layer, over F_p[X].
pub open spec fn poly_perm_linear(rcs: Seq<Seq<u32>>, m: Seq<Seq<u32>>, r_f: int, r_p: int, s: Seq<Seq<u32>>) -> Seq<Seq<u32>> {
    poly_rounds(rcs, m, r_f / 2, r_p, poly_mds(m, s), 2 * (r_f / 2) + r_p)
}

/// The permutation without initial linear layer, over F_p[X].
pub open spec fn poly_perm(rcs: Seq<Seq<u32>>, m: Seq<Seq<u32>>, r_f: int, r_p: int, s: Seq<Seq<u32>>) -> Seq<Seq<u32>> {
    poly_rounds(rcs, m, r_f / 2, r_p, s, 2 * (r_f / 2) + r_p)
}

/// Views of a vector of polynomials.
pub open spec fn polys(v: Seq<Vec<u32>>) -> Seq<Seq<u32>> {
    v.map_values(|p: Vec<u32>| p@)
}

/// Every polynomial reduced and at most `bound` long.
pub open spec fn polys_within(s: Seq<Seq<u32>>, bound: int) -> bool {
    forall|i: int| 0 <= i < s.len() ==> reduced(#[trigger] s[i]) && s[i].len() <= bound
}

pub(crate) proof fn lemma_add_len(a: Seq<u32>, b: Seq<u32>)
    ensures
        add_spec(a, b).len() <= max_len(a, b),
        canon(add_spec(a, b)),
{
    lemma_trim(from_fn(max_len(a, b), add_coefs(a, b)));
    lemma_ops_canon(a, b, 0);
}

pub(crate) proof fn lemma_scalar_len(a: Seq<u32>, c: int)
    ensures
        scalar_spec(a, c).len() <= a.len(),
        canon(scalar_spec(a, c)),
{
    lemma_trim(from_fn(a.len(), scalar_coefs(a, c)));
    lemma_ops_canon(a, a, c);
}

/// `f^3` over F_p[X].
fn sbox_poly(f: &[u32]) -> (r: pl::Poly)
    requires
        reduced(f@),
        3 * f.len() <= 16777216,
    ensures
        r@ == cube_poly(f@),
        r.len() <= 3 * f.len(),
        canon(r@),
{
    proof {
        lemma_trim(f@);
    }
    let ff = pl::mul(f, f);
    proof {
        lemma_ops_canon(f@, f@, 0);
        lemma_trim_canon(ff@);
        lemma_mul_spec_len(f@, f@);
    }
    let r = pl::mul(&ff, f);
    proof {
        lemma_ops_canon(ff@, f@, 0);
        lemma_mul_spec_len(ff@, f@);
    }
    r
}

/// Apply the (normal-domain) linear layer to a state of polynomials.
fn mds_poly(state: &[pl::Poly], mds_n: &[Vec<u32>], Ghost(bound): Ghost<int>) -> (out: Vec<pl::Poly>)
    requires
        bound >= 0,
        mds_n.len() >= state.len(),
        forall|i: int| 0 <= i < state.len() ==> #[trigger] mds_n[i].len() >= state.len(),
        polys_within(polys(state@), bound),
    ensures
        out.len() == state.len(),
        polys(out@) == poly_mds(polys(mds_n@), polys(state@)),
        polys_within(polys(out@), bound),
        forall|i: int| 0 <= i < out.len() ==> #[trigger] canon(out@[i]@),
{
    let t = state.len();
    let ghost s = polys(state@);
    let ghost m = polys(mds_n@);
    let mut out: Vec<pl::Poly> = Vec::new();
    let mut i: usize = 0;
    while i < t
        invariant
            t == state.len(),
            s == polys(state@),
            m == polys(mds_n@),
            mds_n.len() >= t,
            forall|a: int| 0 <= a < t ==> #[trigger] mds_n[a].len() >= t,
            polys_within(s, bound),
            bound >= 0,
            i <= t,
            out.len() == i,
            forall|a: int| 0 <= a < i ==> #[trigger] out@[a]@ == poly_dot(m[a], s, t as int),
            forall|a: int| 0 <= a < i ==> #[trigger] canon(out@[a]@) && out@[a]@.len() <= bound,
        decreases t - i,
    {
        let mut acc: pl::Poly = Vec::new();
        let mut j: usize = 0;
        while j < t
            invariant
                t == state.len(),
                s == polys(state@),
                m == polys(mds_n@),
                i < t,
                mds_n.len() >= t,
                forall|a: int| 0 <= a < t ==> #[trigger] mds_n[a].len() >= t,
                polys_within(s, bound),
                bound >= 0,
                j <= t,
                acc@ == poly_dot(m[i as int], s, j as int),
                canon(acc@),
                acc.len() <= bound,
            decreases t - j,
        {
            assert(mds_n[i as int].len() >= t);
            let c = mds_n[i][j];
            proof {
                assert(reduced(s[j as int]) && s[j as int].len() <= bound);
                assert(m[i as int][j as int] == c);
            }
            if state[j].len() > 0 {
                let sc = pl::scalar(&state[j], c);
                proof {
                    lemma_scalar_len(s[j as int], c as int);
                }
                acc = pl::add(&acc, &sc);
                proof {
                    lemma_add_len(poly_dot(m[i as int], s, j as int), scalar_spec(s[j as int], c as int));
                }
            } else {
                proof {
                    assert(s[j as int] =~= Seq::<u32>::empty());
                    assert(scalar_spec(s[j as int], c as int) =~= Seq::<u32>::empty()) by {
                        lemma_scalar_len(s[j as int], c as int);
                    }
                    lemma_add_empty_right(acc@);
                }
            }
            j += 1;
        }
        out.push(acc);
        i += 1;
    }
    proof {
        assert(polys(out@) =~= poly_mds(m, s));
        assert forall|a: int| 0 <= a < out.len() implies reduced(#[trigger] polys(out@)[a]) && polys(out@)[a].len() <= bound by {
            assert(canon(out@[a]@));
        }
    }
    out
}

/// One full round over F_p[X].
fn full_round_poly(pos: &Poseidon1, s: Vec<pl::Poly>, idx: usize, Ghost(bound): Ghost<int>) -> (out: Vec<pl::Poly>)
    requires
        pos.wf(),
        idx < pos.r_f + pos.r_p,
        s.len() == 16,
        1 <= bound,
        3 * bound <= 16777216,
        polys_within(polys(s@), bound),
    ensures
        out.len() == 16,
        polys(out@) == poly_full_round(pos.mds_model(), pos.rc_model()[idx as int], polys(s@)),
        polys_within(polys(out@), 3 * bound),
{
    let ghost s0 = polys(s@);
    let ghost a = poly_add_rc(s0, pos.rc_model()[idx as int]);
    let mut x = s;
    let mut i: usize = 0;
    while i < 16
        invariant
            pos.wf(),
            idx < pos.r_f + pos.r_p,
            x.len() == 16,
            1 <= bound,
            3 * bound <= 16777216,
            polys_within(s0, bound),
            a == poly_add_rc(s0, pos.rc_model()[idx as int]),
            s0.len() == 16,
            i <= 16,
            forall|k: int| 0 <= k < i ==> #[trigger] x@[k]@ == cube_poly(a[k]),
            forall|k: int| 0 <= k < i ==> canon(#[trigger] x@[k]@) && x@[k]@.len() <= 3 * bound,
            forall|k: int| i <= k < 16 ==> #[trigger] x@[k]@ == s0[k],
        decreases 16 - i,
    {
        let c = pos.rc_n[idx][i];
        let mut cv: Vec<u32> = Vec::new();
        cv.push(c);
        proof {
            assert(pos.rc_n@[idx as int]@[i as int] < P);
            assert(reduced(s0[i as int]) && s0[i as int].len() <= bound);
            assert(cv@ =~= seq![pos.rc_model()[idx as int][i as int]]);
        }
        let y = pl::add(&x[i], &cv);
        proof {
            lemma_add_len(s0[i as int], cv@);
            lemma_ops_canon(s0[i as int], cv@, 0);
        }
        let z = sbox_poly(&y);
        x.set(i, z);
        i += 1;
    }
    proof {
        let c = Seq::new(16, |k: int| cube_poly(a[k]));
        assert(polys(x@) =~= c);
        assert forall|k: int| 0 <= k < 16 implies reduced(#[trigger] c[k]) && c[k].len() <= 3 * bound by {
            assert(canon(x@[k]@));
        }
    }
    mds_poly(&x, &pos.mds_n, Ghost(3 * bound))
}

/// One partial round over F_p[X].
fn partial_round_poly(pos: &Poseidon1, s: Vec<pl::Poly>, idx: usize, Ghost(bound): Ghost<int>) -> (out: Vec<pl::Poly>)
    requires
        pos.wf(),
        idx < pos.r_f + pos.r_p,
        s.len() == 16,
        1 <= bound,
        3 * bound <= 16777216,
        polys_within(polys(s@), bound),
    ensures
        out.len() == 16,
        polys(out@) == poly_partial_round(pos.mds_model(), pos.rc_model()[idx as int], polys(s@)),
        polys_within(polys(out@), 3 * bound),
{
    let ghost s0 = polys(s@);
    let ghost a = poly_add_rc(s0, pos.rc_model()[idx as int]);
    let mut x = s;
    let mut i: usize = 0;
    while i < 16
        invariant
            pos.wf(),
            idx < pos.r_f + pos.r_p,
            x.len() == 16,
            1 <= bound,
            polys_within(s0, bound),
            a == poly_add_rc(s0, pos.rc_model()[idx as int]),
            s0.len() == 16,
            i <= 16,
            forall|k: int| 0 <= k < i ==> #[trigger] x@[k]@ == a[k],
            forall|k: int| 0 <= k < i ==> canon(#[trigger] x@[k]@) && x@[k]@.len() <= bound,
            forall|k: int| i <= k < 16 ==> #[trigger] x@[k]@ == s0[k],
        decreases 16 - i,
    {
        let c = pos.rc_n[idx][i];
        let mut cv: Vec<u32> = Vec::new();
        cv.push(c);
        proof {
            assert(pos.rc_n@[idx as int]@[i as int] < P);
            assert(reduced(s0[i as int]) && s0[i as int].len() <= bound);
            assert(cv@ =~= seq![pos.rc_model()[idx as int][i as int]]);
        }
        let y = pl::add(&x[i], &cv);
        proof {
            lemma_add_len(s0[i as int], cv@);
            lemma_ops_canon(s0[i as int], cv@, 0);
        }
        x.set(i, y);
        i += 1;
    }
    let z = sbox_poly(&x[0]);
    x.set(0, z);
    proof {
        let c = a.update(0, cube_poly(a[0]));
        assert(polys(x@) =~= c);
        assert forall|k: int| 0 <= k < 16 implies reduced(#[trigger] c[k]) && c[k].len() <= 3 * bound by {
            assert(canon(x@[k]@));
        }
    }
    mds_poly(&x, &pos.mds_n, Ghost(3 * bound))
}

/// The permutation over F_p[X] (no initial linear layer); `state` is 16
/// polynomials of degree at most one.
pub fn permutation_poly(pos: &Poseidon1, state: Vec<pl::Poly>) -> (out: Vec<pl::Poly>)
    requires
        pos.wf(),
        pos.alpha == 3,
        state.len() == 16,
        polys_within(polys(state@), 2),
        pow(3, (pos.r_f + pos.r_p) as nat) <= 4194304,
    ensures
        out.len() == 16,
        polys(out@) == poly_perm(pos.rc_model(), pos.mds_model(), pos.r_f as int, pos.r_p as int, polys(state@)),
        polys_within(polys(out@), 2 * pow(3, (pos.r_f + pos.r_p) as nat)),
{
    permutation_poly_within(pos, state, Ghost(2))
}

/// The permutation over F_p[X] on polynomials of at most `b0` coefficients.
fn permutation_poly_within(pos: &Poseidon1, state: Vec<pl::Poly>, Ghost(b0): Ghost<int>) -> (out: Vec<pl::Poly>)
    requires
        pos.wf(),
        pos.alpha == 3,
        state.len() == 16,
        1 <= b0,
        polys_within(polys(state@), b0),
        b0 * pow(3, (pos.r_f + pos.r_p) as nat) <= 16777216,
    ensures
        out.len() == 16,
        polys(out@) == poly_perm(pos.rc_model(), pos.mds_model(), pos.r_f as int, pos.r_p as int, polys(state@)),
        polys_within(polys(out@), b0 * pow(3, (pos.r_f + pos.r_p) as nat)),
{
    let ghost rcs = pos.rc_model();
    let ghost m = pos.mds_model();
    let ghost rounds_total = (pos.r_f + pos.r_p) as nat;
    let mut s = state;
    let ghost s0 = polys(s@);
    let half = pos.r_f / 2;
    let total = pos.rc_n.len();
    assert(half + pos.r_p <= total && 2 * half + pos.r_p <= total);
    let mid = half + pos.r_p;
    let end = mid + half;
    let mut idx: usize = 0;
    proof {
        lemma_pow_positive(3, rounds_total);
        lemma_pow0(3);
    }
    while idx < end
        invariant
            pos.wf(),
            rcs == pos.rc_model(),
            m == pos.mds_model(),
            rounds_total == pos.r_f + pos.r_p,
            1 <= b0,
            b0 * pow(3, rounds_total) <= 16777216,
            half == pos.r_f / 2,
            mid == half + pos.r_p,
            end == 2 * half + pos.r_p,
            idx <= end,
            s.len() == 16,
            polys_within(polys(s@), b0 * pow(3, idx as nat)),
            polys(s@) == poly_rounds(rcs, m, half as int, pos.r_p as int, s0, idx as int),
        decreases end - idx,
    {
        proof {
            lemma_pow_increases(3, (idx + 1) as nat, rounds_total);
            lemma_pow_positive(3, idx as nat);
            lemma_pow_adds(3, idx as nat, 1);
            lemma_pow1(3);
            assert(pow(3, (idx + 1) as nat) == 3 * pow(3, idx as nat));
            assert(b0 * pow(3, (idx + 1) as nat) <= b0 * pow(3, rounds_total)) by (nonlinear_arith)
                requires
                    pow(3, (idx + 1) as nat) <= pow(3, rounds_total),
                    1 <= b0;
            assert(3 * (b0 * pow(3, idx as nat)) == b0 * pow(3, (idx + 1) as nat)) by (nonlinear_arith)
                requires
                    pow(3, (idx + 1) as nat) == 3 * pow(3, idx as nat);
            assert(1 <= b0 * pow(3, idx as nat)) by (nonlinear_arith)
                requires
                    1 <= b0,
                    pow(3, idx as nat) > 0;
        }
        let ghost b = b0 * pow(3, idx as nat);
        if half <= idx && idx < mid {
            s = partial_round_poly(pos, s, idx, Ghost(b));
        } else {
            s = full_round_poly(pos, s, idx, Ghost(b));
        }
        idx += 1;
    }
    proof {
        lemma_pow_increases(3, idx as nat, rounds_total);
        assert(b0 * pow(3, idx as nat) <= b0 * pow(3, rounds_total)) by (nonlinear_arith)
            requires
                pow(3, idx as nat) <= pow(3, rounds_total),
                1 <= b0;
        assert forall|k: int| 0 <= k < 16 implies reduced(#[trigger] polys(s@)[k]) && polys(s@)[k].len() <= b0 * pow(3, rounds_total) by {
            assert(reduced(polys(s@)[k]) && polys(s@)[k].len() <= b0 * pow(3, idx as nat));
        }
    }
    s
}

/// A state of polynomials of at most two coefficients meets the
/// precondition of `perm_plus_linear_poly`.
proof fn lemma_linear_state_ok(pos: &Poseidon1, state: Seq<pl::Poly>)
    requires
        state.len() == 16,
        polys_within(polys(state), 2),
        pow(3, (pos.r_f + pos.r_p) as nat) <= 4194304,
    ensures
        forall|i: int| 0 <= i < 16 ==> reduced(#[trigger] state[i]@),
        forall|i: int| 0 <= i < 16 ==> (if state[i].len() > 1 { state[i].len() as int } else { 1 }) * pow(3, (pos.r_f + pos.r_p) as nat) <= 8388608,
{
    assert forall|i: int| 0 <= i < 16 implies (if state[i].len() > 1 { state[i].len() as int } else { 1 }) * pow(3, (pos.r_f + pos.r_p) as nat) <= 8388608 by {
        assert(polys(state)[i] == state[i]@);
        assert((if state[i].len() > 1 { state[i].len() as int } else { 1 }) <= 2);
        lemma_pow_positive(3, (pos.r_f + pos.r_p) as nat);
        assert((if state[i].len() > 1 { state[i].len() as int } else { 1 }) * pow(3, (pos.r_f + pos.r_p) as nat) <= 2 * 4194304) by (nonlinear_arith)
            requires
                (if state[i].len() > 1 { state[i].len() as int } else { 1 }) <= 2,
                0 < pow(3, (pos.r_f + pos.r_p) as nat) <= 4194304;
    }
    assert forall|i: int| 0 <= i < 16 implies reduced(#[trigger] state[i]@) by {
        assert(polys(state)[i] == state[i]@);
    }
}

/// The permutation with initial linear layer over F_p[X] on a state of 16
/// polynomials, each of at most `b` coefficients where `b * 3^(r_f + r_p)`
/// stays within the transform length.
pub fn perm_plus_linear_poly(pos: &Poseidon1, state: &[pl::Poly]) -> (out: Vec<pl::Poly>)
    requires
        pos.wf(),
        pos.alpha == 3,
        state.len() == 16,
        forall|i: int| 0 <= i < 16 ==> reduced(#[trigger] state[i]@),
        forall|i: int| 0 <= i < 16 ==> (if state[i].len() > 1 { state[i].len() as int } else { 1 }) * pow(3, (pos.r_f + pos.r_p) as nat) <= 16777216,
    ensures
        out.len() == 16,
        polys(out@) == poly_perm_linear(pos.rc_model(), pos.mds_model(), pos.r_f as int, pos.r_p as int, polys(state@)),
        forall|b: int| 1 <= b && #[trigger] polys_within(polys(state@), b) ==> polys_within(polys(out@), b * pow(3, (pos.r_f + pos.r_p) as nat)),
{
    let mut b: usize = 1;
    let mut i: usize = 0;
    while i < 16
        invariant
            state.len() == 16,
            i <= 16,
            1 <= b,
            forall|k: int| 0 <= k < 16 ==> (if state[k].len() > 1 { state[k].len() as int } else { 1 }) * pow(3, (pos.r_f + pos.r_p) as nat) <= 16777216,
            b == 1 || exists|k: int| 0 <= k < i && state[k].len() == b,
            forall|k: int| 0 <= k < i ==> #[trigger] state[k].len() <= b,
        decreases 16 - i,
    {
        if state[i].len() > b {
            b = state[i].len();
        }
        i += 1;
    }
    proof {
        lemma_pow_positive(3, (pos.r_f + pos.r_p) as nat);
        assert(polys_within(polys(state@), b as int));
        assert(b * pow(3, (pos.r_f + pos.r_p) as nat) <= 16777216) by {
            if b > 1 {
                let k = choose|k: int| 0 <= k < 16 && state[k].len() == b;
                assert((if state[k].len() > 1 { state[k].len() as int } else { 1 }) * pow(3, (pos.r_f + pos.r_p) as nat) <= 16777216);
            } else {
                assert((if state[0].len() > 1 { state[0].len() as int } else { 1 }) * pow(3, (pos.r_f + pos.r_p) as nat) <= 16777216);
                assert(1 * pow(3, (pos.r_f + pos.r_p) as nat) <= 16777216) by (nonlinear_arith)
                    requires
                        (if state[0].len() > 1 { state[0].len() as int } else { 1 }) * pow(3, (pos.r_f + pos.r_p) as nat) <= 16777216,
                        pow(3, (pos.r_f + pos.r_p) as nat) > 0;
            }
        }
    }
    let s = mds_poly(state, &pos.mds_n, Ghost(b as int));
    let out = permutation_poly_within(pos, s, Ghost(b as int));
    proof {
        let p3 = pow(3, (pos.r_f + pos.r_p) as nat);
        assert forall|b2: int| 1 <= b2 && #[trigger] polys_within(polys(state@), b2) implies polys_within(polys(out@), b2 * p3) by {
            if 16 > 0 {
                if b2 < b {
                    let k = choose|k: int| 0 <= k < 16 && state[k].len() == b;
                    assert(polys(state@)[k].len() <= b2);
                    assert(false);
                }
                assert(b * p3 <= b2 * p3) by (nonlinear_arith)
                    requires
                        b <= b2,
                        p3 > 0;
                assert forall|k: int| 0 <= k < 16 implies reduced(#[trigger] polys(out@)[k]) && polys(out@)[k].len() <= b2 * p3 by {
                    assert(reduced(polys(out@)[k]) && polys(out@)[k].len() <= b * p3);
                }
            }
        }
    }
    out
}

// ---------------------------------------------------------------------------
// The attacks
// ---------------------------------------------------------------------------

/// The symbolic CICO state: words 0, 1 the constants, then `assign`.
pub open spec fn cico_poly_state(assign: Seq<Seq<u32>>) -> Seq<Seq<u32>> {
    seq![seq![CICO_C1 % P], seq![CICO_C2 % P]] + assign
}

/// State with positions 0, 1 the constants `C1`, `C2` and positions `2..`
/// the `assignment` polynomials.
fn build_state(assignment: &[pl::Poly], t: usize) -> (st: Vec<pl::Poly>)
    requires
        2 <= t,
        assignment.len() >= t - 2,
    ensures
        st.len() == t,
        polys(st@) == cico_poly_state(polys(assignment@).subrange(0, t - 2)),
{
    let mut st: Vec<pl::Poly> = Vec::new();
    let mut c1: Vec<u32> = Vec::new();
    c1.push(CICO_C1 % P);
    let mut c2: Vec<u32> = Vec::new();
    c2.push(CICO_C2 % P);
    st.push(c1);
    st.push(c2);
    let mut j: usize = 0;
    while j < t - 2
        invariant
            2 <= t,
            assignment.len() >= t - 2,
            j <= t - 2,
            st.len() == j + 2,
            st@[0]@ == seq![CICO_C1 % P],
            st@[1]@ == seq![CICO_C2 % P],
            forall|k: int| 2 <= k < j + 2 ==> #[trigger] st@[k]@ == assignment@[k - 2]@,
        decreases t - 2 - j,
    {
        let c = assignment[j].clone();
        assert(c@ =~= assignment@[j as int]@);
        st.push(c);
        j += 1;
    }
    assert(polys(st@) =~= cico_poly_state(polys(assignment@).subrange(0, t - 2)));
    st
}

/// SplitMix64, as used by the attacks.
struct Rng(u64);

impl Rng {
    fn new(s: u64) -> (r: Self)
        ensures
            r.0 == s,
    {
        Rng(s)
    }

    fn next(&mut self) -> (r: u64)
        ensures
            final(self).0 == splitmix_advance(old(self).0),
            r == splitmix_mix(splitmix_advance(old(self).0)),
    {
        self.0 = self.0.wrapping_add(0x9E3779B97F4A7C15);
        let mut z = self.0;
        z = (z ^ (z >> 30)).wrapping_mul(0xBF58476D1CE4E5B9);
        z = (z ^ (z >> 27)).wrapping_mul(0x94D049BB133111EB);
        z ^ (z >> 31)
    }

    fn field(&mut self) -> (r: u32)
        ensures
            final(self).0 == splitmix_advance(old(self).0),
            r as int == (splitmix_mix(splitmix_advance(old(self).0)) as int) % (P as int),
            r < P,
    {
        (self.next() % PU64) as u32
    }

    fn field_nz(&mut self) -> (r: u32)
        ensures
            final(self).0 == splitmix_advance(old(self).0),
            r as int == 1 + (splitmix_mix(splitmix_advance(old(self).0)) as int) % (P as int - 1),
            0 < r < P,
    {
        1 + (self.next() % (PU64 - 1)) as u32
    }
}

/// `3^e` for small `e`.
pub(crate) fn pow3(e: usize) -> (r: usize)
    requires
        pow(3, e as nat) <= usize::MAX,
    ensures
        r == pow(3, e as nat),
{
    let mut r: usize = 1;
    let mut k: usize = 0;
    proof {
        lemma_pow0(3);
    }
    while k < e
        invariant
            k <= e,
            r == pow(3, k as nat),
            pow(3, e as nat) <= usize::MAX,
        decreases e - k,
    {
        proof {
            lemma_pow_adds(3, k as nat, 1);
            lemma_pow1(3);
            lemma_pow_increases(3, (k + 1) as nat, e as nat);
        }
        r = r * 3;
        k += 1;
    }
    r
}

/// The two constrained outputs, as polynomials in the second free word, with
/// the first free word set to `xval` and the others to `fixed`.
/// The free words on the line through `fixed` with word 0 set to `xval` and
/// word 1 the variable.
pub open spec fn line_assign(xval: u32, fixed: Seq<u32>) -> Seq<Seq<u32>> {
    Seq::new(14, |k: int| if k == 0 { seq![xval] } else if k == 1 { seq![0u32, 1u32] } else { seq![fixed[k]] })
}

/// The two CICO output words over F_p[Y] with word 0 set to `xval`.
pub open spec fn line_outs(pos: &Poseidon1, xval: u32, fixed: Seq<u32>) -> (Seq<u32>, Seq<u32>) {
    let s = poly_perm_linear(pos.rc_model(), pos.mds_model(), pos.r_f as int, pos.r_p as int, cico_poly_state(line_assign(xval, fixed)));
    (trim_spec(s[0]), trim_spec(s[1]))
}

fn outs_at_x(pos: &Poseidon1, xval: u32, fixed: &[u32]) -> (r: (pl::Poly, pl::Poly))
    requires
        pos.wf(),
        pos.alpha == 3,
        pow(3, (pos.r_f + pos.r_p) as nat) <= 4194304,
        xval < P,
        fixed.len() == 14,
        forall|j: int| 0 <= j < 14 ==> #[trigger] fixed[j] < P,
    ensures
        (r.0@, r.1@) == line_outs(pos, xval, fixed@),
        canon(r.0@),
        canon(r.1@),
        r.0.len() <= 2 * pow(3, (pos.r_f + pos.r_p) as nat),
        r.1.len() <= 2 * pow(3, (pos.r_f + pos.r_p) as nat),
{
    let mut assign: Vec<pl::Poly> = Vec::new();
    let mut j: usize = 0;
    while j < 14
        invariant
            xval < P,
            fixed.len() == 14,
            forall|k: int| 0 <= k < 14 ==> #[trigger] fixed[k] < P,
            j <= 14,
            assign.len() == j,
            forall|k: int| 0 <= k < j ==> reduced(#[trigger] assign@[k]@) && assign@[k]@.len() <= 2,
            forall|k: int| 0 <= k < j ==> #[trigger] assign@[k]@ == line_assign(xval, fixed@)[k],
        decreases 14 - j,
    {
        let mut v: Vec<u32> = Vec::new();
        if j == 0 {
            v.push(xval);
        } else if j == 1 {
            v.push(0);
            v.push(1);
        } else {
            v.push(fixed[j]);
        }
        assign.push(v);
        proof {
            assert(v@ =~= line_assign(xval, fixed@)[j as int]);
        }
        j += 1;
    }
    assert(polys_within(polys(assign@), 2));
    assert(polys(assign@).subrange(0, 14) =~= line_assign(xval, fixed@));
    let st = build_state(&assign, 16);
    proof {
        let ps = polys(st@);
        assert forall|k: int| 0 <= k < 16 implies reduced(#[trigger] ps[k]) && ps[k].len() <= 2 by {
            if k >= 2 {
                assert(ps[k] == polys(assign@)[k - 2]);
            }
        }
    }
    proof {
        lemma_linear_state_ok(pos, st@);
    }
    let s = perm_plus_linear_poly(pos, &st);
    proof {
        assert(polys_within(polys(st@), 2));
        assert(reduced(polys(s@)[0]) && reduced(polys(s@)[1]));
        lemma_trim(s@[0]@);
        lemma_trim(s@[1]@);
    }
    (pl::trim(&s[0]), pl::trim(&s[1]))
}

/// The CICO words of `free` are zero.
pub open spec fn cico_solves(pos: &Poseidon1, free: Seq<u32>) -> bool {
    free.len() == 14 && cico_output(pos, free)[0] == 0 && cico_output(pos, free)[1] == 0
}

/// The fixed free words of attempt `a`: words 2..14 drawn in order from the
/// SplitMix64 stream of `seed` (twelve draws per attempt), words 0 and 1 zero.
pub open spec fn attempt_fixed(seed: u64, a: nat) -> Seq<u32> {
    Seq::new(14, |k: int| if k < 2 { 0u32 } else {
        ((splitmix_mix(crate::mds_family::splitmix_state(seed, 12 * a + (k - 1) as nat)) as int) % (P as int)) as u32
    })
}

/// The resultants at `x = 1, ..., n` on the lines through `fixed`.
pub open spec fn cico_samples(pos: &Poseidon1, fixed: Seq<u32>, n: int) -> Seq<u32> {
    Seq::new(n as nat, |i: int| res_spec(line_outs(pos, (i + 1) as u32, fixed).0, line_outs(pos, (i + 1) as u32, fixed).1) as u32)
}

/// The number of interpolation nodes: `2 * 3^(2 (RF + RP)) + 1`.
pub open spec fn cico_nodes(pos: &Poseidon1) -> int {
    2 * pow(3, (pos.r_f + pos.r_p) as nat) * pow(3, (pos.r_f + pos.r_p) as nat) + 1
}

/// The eliminant of an attempt: the interpolant of its samples.
pub open spec fn cico_elim(pos: &Poseidon1, fixed: Seq<u32>) -> Seq<u32> {
    crate::rootvar::elim_spec(crate::rootgrid::grid_xs(cico_nodes(pos)), cico_samples(pos, fixed, cico_nodes(pos)))
}

/// `fixed` with words 0 and 1 set to `x` and `y`.
pub open spec fn cico_free(x: u32, y: u32, fixed: Seq<u32>) -> Seq<u32> {
    fixed.update(0, x).update(1, y)
}

/// `y` is a common root of the two output words at `x` (not both zero), and
/// `(x, y)` with `fixed` solves CICO-2.
pub open spec fn cico_y_ok(pos: &Poseidon1, fixed: Seq<u32>, x: u32, y: u32) -> bool {
    &&& y < P
    &&& !(line_outs(pos, x, fixed).0.len() == 0 && line_outs(pos, x, fixed).1.len() == 0)
    &&& peval(line_outs(pos, x, fixed).0, y as int) % modulus() == 0
    &&& peval(line_outs(pos, x, fixed).1, y as int) % modulus() == 0
    &&& cico_solves(pos, cico_free(x, y, fixed))
}

/// `x` is a root of the (nonzero) eliminant of `fixed`, and some `y` completes it.
pub open spec fn cico_pair_ok(pos: &Poseidon1, fixed: Seq<u32>, x: u32, y: u32) -> bool {
    &&& x < P
    &&& cico_elim(pos, fixed).len() > 0
    &&& peval(cico_elim(pos, fixed), x as int) % modulus() == 0
    &&& cico_y_ok(pos, fixed, x, y)
}

/// `(x, y)` is the first solution of the attempt on `fixed`: no smaller
/// root `x` of the eliminant has a completing `y`, and no smaller `y`
/// completes `x`.
pub open spec fn cico_first(pos: &Poseidon1, fixed: Seq<u32>, x: u32, y: u32) -> bool {
    &&& cico_pair_ok(pos, fixed, x, y)
    &&& forall|x2: u32, y2: u32| x2 < x ==> !#[trigger] cico_pair_ok(pos, fixed, x2, y2)
    &&& forall|y2: u32| y2 < y ==> !#[trigger] cico_y_ok(pos, fixed, x, y2)
}

/// Every attempt that runs (all earlier ones having failed) has an
/// eliminant short enough for the root finder.
pub open spec fn cico_elims_fit(pos: &Poseidon1, seed: u64, tries: nat) -> bool {
    forall|a: nat|
        a < tries && (forall|b: nat, x: u32, y: u32| b < a ==> !#[trigger] cico_pair_ok(pos, attempt_fixed(seed, b), x, y))
            ==> #[trigger] trim_spec(cico_elim(pos, attempt_fixed(seed, a))).len() <= 8388609
}

/// The least `y` completing `x`, or `None`.
fn cico_at_x(pos: &Poseidon1, fixed: &[u32], x: u32) -> (r: Option<Vec<u32>>)
    requires
        pos.wf(),
        pos.alpha == 3,
        pow(3, (pos.r_f + pos.r_p) as nat) <= 2187,
        x < P,
        fixed.len() == 14,
        forall|k: int| 0 <= k < 14 ==> #[trigger] fixed[k] < P,
    ensures
        (r is None) <==> (forall|y: u32| !#[trigger] cico_y_ok(pos, fixed@, x, y)),
        r matches Some(v) ==> exists|y: u32| #[trigger] cico_y_ok(pos, fixed@, x, y) && v@ == cico_free(x, y, fixed@)
            && forall|y2: u32| y2 < y ==> !#[trigger] cico_y_ok(pos, fixed@, x, y2),
{
    let (f0, f1) = outs_at_x(pos, x, fixed);
    let g = pl::gcd(&f0, &f1);
    let yroots = pl::roots(&g);
    proof {
        assert forall|y: u32| #![trigger cico_y_ok(pos, fixed@, x, y)] cico_y_ok(pos, fixed@, x, y) implies yroots@.contains(y) by {
            crate::poly_divides::lemma_common_root(f0@, f1@, g@, y as int);
            if g.len() == 0 {
                assert(g@ =~= Seq::<u32>::empty());
                crate::poly_divides::lemma_divided_by_zero(f0@);
                crate::poly_divides::lemma_divided_by_zero(f1@);
                lemma_trim(f0@);
                lemma_trim(f1@);
            }
            lemma_trim_canon(g@);
        }
        assert forall|j: int| 0 <= j < yroots.len() implies
            peval(f0@, #[trigger] yroots@[j] as int) % modulus() == 0
            && peval(f1@, yroots@[j] as int) % modulus() == 0
            && !(f0@.len() == 0 && f1@.len() == 0) by {
            crate::poly_divides::lemma_root_of_multiple(g@, f0@, yroots@[j] as int);
            crate::poly_divides::lemma_root_of_multiple(g@, f1@, yroots@[j] as int);
            if f0@.len() == 0 && f1@.len() == 0 {
                assert(crate::poly_spec::euclid(trim_spec(f0@), trim_spec(f1@)) == trim_spec(f0@));
            }
        }
    }
    let mut b: usize = 0;
    while b < yroots.len()
        invariant
            pos.wf(),
            fixed.len() == 14,
            x < P,
            b <= yroots.len(),
            (f0@, f1@) == line_outs(pos, x, fixed@),
            forall|j: int| 0 <= j < yroots.len() ==> #[trigger] yroots[j] < P,
            pl::strictly_increasing(yroots@),
            forall|y: u32| #![trigger cico_y_ok(pos, fixed@, x, y)] cico_y_ok(pos, fixed@, x, y) ==> yroots@.contains(y),
            forall|j: int| 0 <= j < yroots.len() ==>
                peval(f0@, #[trigger] yroots@[j] as int) % modulus() == 0
                && peval(f1@, yroots@[j] as int) % modulus() == 0
                && !(f0@.len() == 0 && f1@.len() == 0),
            forall|j: int| 0 <= j < b ==> !cico_y_ok(pos, fixed@, x, #[trigger] yroots@[j]),
        decreases yroots.len() - b,
    {
        let yroot = yroots[b];
        let mut free: Vec<u32> = Vec::new();
        let mut j: usize = 0;
        while j < 14
            invariant
                fixed.len() == 14,
                j <= 14,
                free.len() == j,
                forall|k: int| 0 <= k < j ==> #[trigger] free@[k] == cico_free(x, yroot, fixed@)[k],
            decreases 14 - j,
        {
            let v = if j == 0 {
                x
            } else if j == 1 {
                yroot
            } else {
                fixed[j]
            };
            free.push(v);
            j += 1;
        }
        proof {
            assert(free@ =~= cico_free(x, yroot, fixed@));
            assert(yroots@[b as int] == yroot);
        }
        if verify_cico(pos, &free) {
            proof {
                assert(cico_y_ok(pos, fixed@, x, yroot));
                assert forall|y2: u32| y2 < yroot implies !#[trigger] cico_y_ok(pos, fixed@, x, y2) by {
                    if cico_y_ok(pos, fixed@, x, y2) {
                        let j = choose|j: int| 0 <= j < yroots.len() && yroots@[j] == y2;
                        if j >= b {
                            if j > b {
                                assert(yroots@[b as int] < yroots@[j]);
                            }
                            assert(false);
                        }
                        assert(!cico_y_ok(pos, fixed@, x, yroots@[j]));
                    }
                }
            }
            return Some(free);
        }
        proof {
            assert(!cico_y_ok(pos, fixed@, x, yroot));
        }
        b += 1;
    }
    proof {
        assert forall|y: u32| !#[trigger] cico_y_ok(pos, fixed@, x, y) by {
            if cico_y_ok(pos, fixed@, x, y) {
                let j = choose|j: int| 0 <= j < yroots.len() && yroots@[j] == y;
                assert(!cico_y_ok(pos, fixed@, x, yroots@[j]));
            }
        }
    }
    None
}

/// One attempt on the fixed words `fixed`: the eliminant through
/// `cico_nodes` samples, its roots, and for each root the least completing
/// `y`; the first solution found, or `None` when no root has one.
fn cico_attempt(pos: &Poseidon1, fixed: &[u32], n_nodes: usize) -> (r: Option<Vec<u32>>)
    requires
        pos.wf(),
        pos.alpha == 3,
        pow(3, (pos.r_f + pos.r_p) as nat) <= 2187,
        fixed.len() == 14,
        forall|k: int| 0 <= k < 14 ==> #[trigger] fixed[k] < P,
        n_nodes == cico_nodes(pos),
        3 <= n_nodes <= 2 * 2187 * 2187 + 1,
        n_nodes <= 8388609 || trim_spec(cico_elim(pos, fixed@)).len() <= 8388609,
    ensures
        (r is None) <==> (forall|x: u32, y: u32| !#[trigger] cico_pair_ok(pos, fixed@, x, y)),
        r matches Some(v) ==> exists|x: u32, y: u32| #[trigger] cico_first(pos, fixed@, x, y) && v@ == cico_free(x, y, fixed@),
{
    let mut xs: Vec<u32> = Vec::new();
    let mut ys: Vec<u32> = Vec::new();
    let mut xv: u32 = 1;
    while xs.len() < n_nodes && (xv as u64) < PU64
        invariant
            pos.wf(),
            pos.alpha == 3,
            pow(3, (pos.r_f + pos.r_p) as nat) <= 2187,
            fixed.len() == 14,
            forall|k: int| 0 <= k < 14 ==> #[trigger] fixed[k] < P,
            n_nodes <= 2 * 2187 * 2187 + 1,
            xs.len() == ys.len() <= n_nodes,
            1 <= xv,
            xs.len() == xv - 1,
            forall|i: int| 0 <= i < xs.len() ==> #[trigger] xs@[i] == i + 1,
            forall|i: int| 0 <= i < ys.len() ==> #[trigger] ys@[i] == cico_samples(pos, fixed@, n_nodes as int)[i],
            reduced(xs@),
            reduced(ys@),
        decreases PU64 - xv,
    {
        let rv = res_at(pos, xv, fixed);
        xs.push(xv);
        ys.push(rv);
        xv += 1;
    }
    proof {
        assert(xs@ =~= crate::rootgrid::grid_xs(n_nodes as int));
        assert(ys@ =~= cico_samples(pos, fixed@, n_nodes as int));
    }
    let r_poly = pl::interpolate(&xs, &ys);
    proof {
        assert(r_poly@ == cico_elim(pos, fixed@));
        lemma_trim_canon(r_poly@);
    }
    let xroots = pl::roots(&r_poly);
    proof {
        assert(r_poly@ == cico_elim(pos, fixed@));
        assert forall|x: u32, y: u32| #![trigger cico_pair_ok(pos, fixed@, x, y)] cico_pair_ok(pos, fixed@, x, y) implies xroots@.contains(x) by {
            lemma_trim_canon(r_poly@);
        }
    }
    let mut a: usize = 0;
    while a < xroots.len()
        invariant
            pos.wf(),
            pos.alpha == 3,
            pow(3, (pos.r_f + pos.r_p) as nat) <= 2187,
            fixed.len() == 14,
            forall|k: int| 0 <= k < 14 ==> #[trigger] fixed[k] < P,
            forall|k: int| 0 <= k < xroots.len() ==> #[trigger] xroots[k] < P,
            pl::strictly_increasing(xroots@),
            r_poly@ == cico_elim(pos, fixed@),
            forall|k: int| 0 <= k < xroots.len() ==> (#[trigger] peval(r_poly@, xroots@[k] as int)) % modulus() == 0,
            xroots.len() > 0 ==> r_poly@.len() > 0,
            forall|x: u32, y: u32| #![trigger cico_pair_ok(pos, fixed@, x, y)] cico_pair_ok(pos, fixed@, x, y) ==> xroots@.contains(x),
            forall|k: int, y: u32| 0 <= k < a ==> !#[trigger] cico_y_ok(pos, fixed@, xroots@[k], y),
        decreases xroots.len() - a,
    {
        let xroot = xroots[a];
        proof {
            assert(xroots@[a as int] < P);
        }
        match cico_at_x(pos, fixed, xroot) {
            Some(v) => {
                proof {
                    let y = choose|y: u32| #[trigger] cico_y_ok(pos, fixed@, xroot, y) && v@ == cico_free(xroot, y, fixed@)
                        && forall|y2: u32| y2 < y ==> !#[trigger] cico_y_ok(pos, fixed@, xroot, y2);
                    assert(peval(r_poly@, xroots@[a as int] as int) % modulus() == 0);
                    assert(cico_pair_ok(pos, fixed@, xroot, y));
                    assert forall|x2: u32, y2: u32| x2 < xroot implies !#[trigger] cico_pair_ok(pos, fixed@, x2, y2) by {
                        if cico_pair_ok(pos, fixed@, x2, y2) {
                            let k = choose|k: int| 0 <= k < xroots.len() && xroots@[k] == x2;
                            if k >= a {
                                if k > a {
                                    assert(xroots@[a as int] < xroots@[k]);
                                }
                                assert(false);
                            }
                            assert(!cico_y_ok(pos, fixed@, xroots@[k], y2));
                        }
                    }
                    assert(cico_first(pos, fixed@, xroot, y));
                }
                return Some(v);
            },
            None => {
                proof {
                    assert forall|k: int, y: u32| 0 <= k < a + 1 implies !#[trigger] cico_y_ok(pos, fixed@, xroots@[k], y) by {
                        if k == a {
                            assert(xroots@[k] == xroot);
                        }
                    }
                }
            },
        }
        a += 1;
    }
    proof {
        assert forall|x: u32, y: u32| !#[trigger] cico_pair_ok(pos, fixed@, x, y) by {
            if cico_pair_ok(pos, fixed@, x, y) {
                let k = choose|k: int| 0 <= k < xroots.len() && xroots@[k] == x;
                assert(!cico_y_ok(pos, fixed@, xroots@[k], y));
            }
        }
    }
    None
}

/// Resultant route: eliminates the second free word by the resultant, finds
/// the roots of the result in the first, and back-substitutes through a gcd.
/// Attempt `a` fixes the other free words by `attempt_fixed(seed, a)`; the
/// first solution (least `x`, then least `y`) of the first attempt that has
/// one is returned, and `None` means no attempt had one. Past six rounds the
/// eliminants of the attempts that run must stay within the root finder's
/// length.
pub fn solve_cico2(pos: &Poseidon1, tries: usize, seed: u64) -> (r: Option<Vec<u32>>)
    requires
        pos.wf(),
        pos.alpha == 3,
        tries == 0 || pow(3, (pos.r_f + pos.r_p) as nat) <= 1024 || (pow(3, (pos.r_f + pos.r_p) as nat) <= 2187
            && cico_elims_fit(pos, seed, tries as nat)),
    ensures
        r.is_some() ==> cico_solves(pos, r.unwrap()@),
        r matches Some(v) ==> exists|a: nat, x: u32, y: u32| a < tries && #[trigger] cico_first(pos, attempt_fixed(seed, a), x, y)
            && v@ == cico_free(x, y, attempt_fixed(seed, a))
            && forall|b: nat, x2: u32, y2: u32| b < a ==> !#[trigger] cico_pair_ok(pos, attempt_fixed(seed, b), x2, y2),
        r is None ==> forall|a: nat, x: u32, y: u32| a < tries ==> !#[trigger] cico_pair_ok(pos, attempt_fixed(seed, a), x, y),
{
    if tries == 0 {
        return None;
    }
    let px: usize = 0;
    let py: usize = 1;
    let nfree: usize = 14;
    let mut rng = Rng::new(seed);
    proof {
        lemma_pow_positive(3, (pos.r_f + pos.r_p) as nat);
    }
    let rounds = pos.rc_n.len();
    let fwd = pow3(rounds);
    assert(2 <= 2 * fwd * fwd <= 2 * 2187 * 2187) by (nonlinear_arith)
        requires
            1 <= fwd <= 2187;
    assert(fwd <= 1024 ==> 2 * fwd * fwd <= 2 * 1024 * 1024) by (nonlinear_arith)
        requires
            1 <= fwd;
    let nodes = 2 * fwd * fwd + 1;
    let n_nodes = if (nodes as u64) < PU64 - 1 { nodes } else { (PU64 - 1) as usize };
    proof {
        assert(n_nodes == nodes);
        assert(2 * fwd * fwd == 2 * (fwd * fwd)) by (nonlinear_arith);
        assert(n_nodes == cico_nodes(pos));
    }
    let mut attempt: usize = 0;
    while attempt < tries
        invariant
            pos.wf(),
            pos.alpha == 3,
            pow(3, (pos.r_f + pos.r_p) as nat) <= 2187,
            pow(3, (pos.r_f + pos.r_p) as nat) <= 1024 || cico_elims_fit(pos, seed, tries as nat),
            pow(3, (pos.r_f + pos.r_p) as nat) <= 1024 ==> n_nodes <= 2 * 1024 * 1024 + 1,
            n_nodes == cico_nodes(pos),
            3 <= n_nodes <= 2 * 2187 * 2187 + 1,
            nfree == 14,
            px == 0,
            py == 1,
            rng.0 == crate::mds_family::splitmix_state(seed, 12 * attempt as nat),
            forall|a: nat, x: u32, y: u32| a < attempt ==> !#[trigger] cico_pair_ok(pos, attempt_fixed(seed, a), x, y),
        decreases tries - attempt,
    {
        let ghost s0 = rng.0;
        let mut fixed: Vec<u32> = Vec::new();
        let mut j: usize = 0;
        while j < nfree
            invariant
                nfree == 14,
                px == 0,
                py == 1,
                j <= nfree,
                fixed.len() == j,
                s0 == crate::mds_family::splitmix_state(seed, 12 * attempt as nat),
                j < 2 ==> rng.0 == s0,
                j >= 2 ==> rng.0 == crate::mds_family::splitmix_state(seed, (12 * attempt + j - 2) as nat),
                forall|k: int| 0 <= k < j ==> #[trigger] fixed@[k] == attempt_fixed(seed, attempt as nat)[k],
                forall|k: int| 0 <= k < j ==> #[trigger] fixed[k] < P,
            decreases nfree - j,
        {
            if j != px && j != py {
                let ghost before = rng.0;
                let v = rng.field();
                proof {
                    let n = (12 * attempt + j - 2) as nat;
                    assert(crate::mds_family::splitmix_state(seed, n + 1) == splitmix_advance(crate::mds_family::splitmix_state(seed, n)));
                    assert((12 * attempt + (j - 1)) as nat == n + 1);
                }
                fixed.push(v);
            } else {
                fixed.push(0);
            }
            j += 1;
        }
        proof {
            assert(fixed@ =~= attempt_fixed(seed, attempt as nat));
            assert((12 * attempt + 14 - 2) as nat == 12 * (attempt + 1) as nat);
        }
        proof {
            if pow(3, (pos.r_f + pos.r_p) as nat) > 1024 {
                assert(trim_spec(cico_elim(pos, attempt_fixed(seed, attempt as nat))).len() <= 8388609);
            }
        }
        match cico_attempt(pos, &fixed, n_nodes) {
            Some(v) => {
                proof {
                    let (x, y) = choose|x: u32, y: u32| #[trigger] cico_first(pos, fixed@, x, y) && v@ == cico_free(x, y, fixed@);
                    assert(cico_first(pos, attempt_fixed(seed, attempt as nat), x, y));
                }
                return Some(v);
            },
            None => {},
        }
        attempt += 1;
    }
    None
}

/// The base and direction of line `line`: given words are copied, the others
/// drawn in order (base word, then direction word, for each position).
fn draw_line(rng: &mut Rng, base: Option<&[u32]>, direction: Option<&[u32]>, Ghost(seed): Ghost<u64>, Ghost(line): Ghost<nat>) -> (r: (Vec<u32>, Vec<u32>))
    requires
        base.is_some() ==> base.unwrap().len() >= 14,
        direction.is_some() ==> direction.unwrap().len() >= 14,
        old(rng).0 == crate::mds_family::splitmix_state(seed, gcd_line_start(
            opt_words(base),
            opt_words(direction), line)),
    ensures
        ({
            let bo = opt_words(base);
            let dopt = opt_words(direction);
            &&& r.0@ == gcd_base(bo, dopt, seed, line)
            &&& r.1@ == gcd_dir(bo, dopt, seed, line)
            &&& final(rng).0 == crate::mds_family::splitmix_state(seed, gcd_line_start(bo, dopt, line + 1))
        }),
{
    let ghost bo = opt_words(base);
    let ghost dopt = opt_words(direction);
    let ghost c = gcd_draws_per_word(bo, dopt);
    let ghost bn: nat = if base is None { 1 } else { 0 };
    let ghost start: nat = (14 * c * line) as nat;
    proof {
        reveal(gcd_line_start);
    }
    let mut b: Vec<u32> = Vec::new();
    let mut d: Vec<u32> = Vec::new();
    let mut j: usize = 0;
    while j < 14
        invariant
            base.is_some() ==> base.unwrap().len() >= 14,
            direction.is_some() ==> direction.unwrap().len() >= 14,
            bo == (opt_words(base)),
            dopt == (opt_words(direction)),
            c == gcd_draws_per_word(bo, dopt),
            bn == (if base is None { 1nat } else { 0nat }),
            start == (14 * c * line) as nat,
            j <= 14,
            b.len() == j,
            d.len() == j,
            rng.0 == crate::mds_family::splitmix_state(seed, (start + c * j) as nat),
            forall|k: int| 0 <= k < j ==> #[trigger] b@[k] == gcd_base_word(bo, dopt, seed, line, k as nat),
            forall|k: int| 0 <= k < j ==> #[trigger] d@[k] == gcd_dir_word(bo, dopt, seed, line, k as nat),
        decreases 14 - j,
    {
        let ghost s_j: nat = (start + c * j) as nat;
        match base {
            Some(v) => b.push(v[j]),
            None => {
                let w = rng.field();
                b.push(w);
            },
        }
        proof {
            assert(crate::mds_family::splitmix_state(seed, (s_j + 1) as nat) == crate::poly::splitmix_advance(crate::mds_family::splitmix_state(seed, s_j)));
            assert(rng.0 == crate::mds_family::splitmix_state(seed, (s_j + bn) as nat));
        }
        match direction {
            Some(v) => d.push(v[j]),
            None => {
                let w = rng.field_nz();
                d.push(w);
            },
        }
        proof {
            assert(crate::mds_family::splitmix_state(seed, (s_j + bn + 1) as nat) == crate::poly::splitmix_advance(crate::mds_family::splitmix_state(seed, (s_j + bn) as nat)));
            assert(c * (j + 1) == c * j + c) by (nonlinear_arith);
            assert(b@[j as int] == gcd_base_word(bo, dopt, seed, line, j as nat));
            assert(d@[j as int] == gcd_dir_word(bo, dopt, seed, line, j as nat));
        }
        j += 1;
    }
    proof {
        reveal(gcd_line_start);
        assert(14 * c * (line + 1) == 14 * c * line + c * 14) by (nonlinear_arith);
        assert(b@ =~= gcd_base(bo, dopt, seed, line));
        assert(d@ =~= gcd_dir(bo, dopt, seed, line));
    }
    (b, d)
}

/// Counters of the GCD route.
pub struct GcdInfo {
    pub lines_tried: usize,
    pub deg_inputs: i64,
}

/// The words of an optional slice.
pub open spec fn opt_words(o: Option<&[u32]>) -> Option<Seq<u32>> {
    match o {
        Some(v) => Some(v@),
        None => None,
    }
}

/// Draws per free word on a line: one for a random base word, one for a
/// random direction word.
pub open spec fn gcd_draws_per_word(base: Option<Seq<u32>>, dir: Option<Seq<u32>>) -> nat {
    (if base is None { 1nat } else { 0nat }) + (if dir is None { 1nat } else { 0nat })
}

/// Draws taken before line `l`: fourteen words per line.
#[verifier::opaque]
pub open spec fn gcd_line_start(base: Option<Seq<u32>>, dir: Option<Seq<u32>>, l: nat) -> nat {
    14 * gcd_draws_per_word(base, dir) * l
}

/// Word `j` of the base of line `l` from `seed`.
pub open spec fn gcd_base_word(base: Option<Seq<u32>>, dir: Option<Seq<u32>>, seed: u64, l: nat, j: nat) -> u32 {
    let c = gcd_draws_per_word(base, dir);
    match base {
        Some(v) => v[j as int],
        None => ((splitmix_mix(crate::mds_family::splitmix_state(seed, 14 * c * l + c * j + 1)) as int) % (P as int)) as u32,
    }
}

/// Word `j` of the direction of line `l` from `seed`.
pub open spec fn gcd_dir_word(base: Option<Seq<u32>>, dir: Option<Seq<u32>>, seed: u64, l: nat, j: nat) -> u32 {
    let c = gcd_draws_per_word(base, dir);
    let bn: nat = if base is None { 1 } else { 0 };
    match dir {
        Some(v) => v[j as int],
        None => (1 + (splitmix_mix(crate::mds_family::splitmix_state(seed, 14 * c * l + c * j + bn + 1)) as int) % (P as int - 1)) as u32,
    }
}

/// The base of line `l`.
pub open spec fn gcd_base(base: Option<Seq<u32>>, dir: Option<Seq<u32>>, seed: u64, l: nat) -> Seq<u32> {
    Seq::new(14, |j: int| gcd_base_word(base, dir, seed, l, j as nat))
}

/// The direction of line `l`.
pub open spec fn gcd_dir(base: Option<Seq<u32>>, dir: Option<Seq<u32>>, seed: u64, l: nat) -> Seq<u32> {
    Seq::new(14, |j: int| gcd_dir_word(base, dir, seed, l, j as nat))
}

/// The two CICO output words over F_p[X] on the line `b + X d`.
#[verifier::opaque]
pub open spec fn gcd_line_outs(pos: &Poseidon1, b: Seq<u32>, d: Seq<u32>) -> (Seq<u32>, Seq<u32>) {
    let assign = Seq::new(14, |k: int| seq![b[k] % P, d[k] % P]);
    let s = poly_perm_linear(pos.rc_model(), pos.mds_model(), pos.r_f as int, pos.r_p as int, cico_poly_state(assign));
    (trim_spec(s[0]), trim_spec(s[1]))
}

/// The degree of the first output word over F_p[X] on line `l`.
pub open spec fn gcd_line_degree(pos: &Poseidon1, base: Option<Seq<u32>>, dir: Option<Seq<u32>>, seed: u64, l: nat) -> int {
    degree(gcd_line_outs(pos, gcd_base(base, dir, seed, l), gcd_dir(base, dir, seed, l)).0)
}

/// On a pinned line `b + X d` the degree reported is that of the first
/// output word over F_p[X] on that line, whatever the seed.
pub proof fn law_pinned_line_degree(pos: &Poseidon1, b: Seq<u32>, d: Seq<u32>, seed: u64)
    requires
        b.len() == 14,
        d.len() == 14,
    ensures
        gcd_line_degree(pos, Some(b), Some(d), seed, 0) == degree(gcd_line_outs(pos, b, d).0),
{
    assert(gcd_base(Some(b), Some(d), seed, 0) =~= b);
    assert(gcd_dir(Some(b), Some(d), seed, 0) =~= d);
}

/// The point `b + x d` of a line.
pub open spec fn gcd_point(b: Seq<u32>, d: Seq<u32>, x: u32) -> Seq<u32> {
    Seq::new(14, |j: int| ((b[j] as int + (x as int) * (d[j] as int)) % (P as int)) as u32)
}

/// `x` is a common root of the output words on the line (not both zero),
/// and the point `b + x d` solves CICO-2.
#[verifier::opaque]
pub open spec fn gcd_x_ok(pos: &Poseidon1, b: Seq<u32>, d: Seq<u32>, x: u32) -> bool {
    &&& x < P
    &&& !(gcd_line_outs(pos, b, d).0.len() == 0 && gcd_line_outs(pos, b, d).1.len() == 0)
    &&& peval(gcd_line_outs(pos, b, d).0, x as int) % modulus() == 0
    &&& peval(gcd_line_outs(pos, b, d).1, x as int) % modulus() == 0
    &&& cico_solves(pos, gcd_point(b, d, x))
}

/// No root on line `l` gives a CICO-2 solution.
#[verifier::opaque]
pub open spec fn gcd_line_fails(pos: &Poseidon1, base: Option<Seq<u32>>, dir: Option<Seq<u32>>, seed: u64, l: nat) -> bool {
    forall|x: u32| !#[trigger] gcd_x_ok(pos, gcd_base(base, dir, seed, l), gcd_dir(base, dir, seed, l), x)
}

/// `v` is the point of a root on line `l` that gives a CICO-2 solution.
#[verifier::opaque]
pub open spec fn gcd_line_gives(pos: &Poseidon1, base: Option<Seq<u32>>, dir: Option<Seq<u32>>, seed: u64, l: nat, v: Seq<u32>) -> bool {
    exists|x: u32| #[trigger] gcd_x_ok(pos, gcd_base(base, dir, seed, l), gcd_dir(base, dir, seed, l), x)
        && v == gcd_point(gcd_base(base, dir, seed, l), gcd_dir(base, dir, seed, l), x)
}

/// A root accepted on a line gives a CICO-2 solution.
proof fn lemma_gcd_x_ok_solves(pos: &Poseidon1, b: Seq<u32>, d: Seq<u32>, x: u32)
    requires
        gcd_x_ok(pos, b, d, x),
    ensures
        cico_solves(pos, gcd_point(b, d, x)),
{
    reveal(gcd_x_ok);
}

/// One line: the first common root of the output words, in increasing order,
/// whose point solves CICO-2, and the degree of the first output word.
fn gcd_line(pos: &Poseidon1, b: &Vec<u32>, d: &Vec<u32>) -> (r: (Option<Vec<u32>>, i64))
    requires
        pos.wf(),
        pos.alpha == 3,
        pow(3, (pos.r_f + pos.r_p) as nat) <= 4194304,
        b.len() == 14,
        d.len() == 14,
    ensures
        r.1 == degree(gcd_line_outs(pos, b@, d@).0),
        (r.0 is None) <==> (forall|x: u32| !#[trigger] gcd_x_ok(pos, b@, d@, x)),
        r.0 matches Some(v) ==> exists|x: u32| #[trigger] gcd_x_ok(pos, b@, d@, x) && v@ == gcd_point(b@, d@, x),
{
    reveal(gcd_x_ok);
    let ghost assign_spec = Seq::new(14, |k: int| seq![b@[k] % P, d@[k] % P]);
    let mut assign: Vec<pl::Poly> = Vec::new();
    let mut j: usize = 0;
    while j < 14
        invariant
            b.len() == 14,
            d.len() == 14,
            j <= 14,
            assign.len() == j,
            assign_spec == Seq::new(14, |k: int| seq![b@[k] % P, d@[k] % P]),
            forall|k: int| 0 <= k < j ==> reduced(#[trigger] assign@[k]@) && assign@[k]@.len() <= 2,
            forall|k: int| 0 <= k < j ==> #[trigger] assign@[k]@ == assign_spec[k],
        decreases 14 - j,
    {
        let mut v: Vec<u32> = Vec::new();
        v.push(b[j] % P);
        v.push(d[j] % P);
        proof {
            assert(v@ =~= assign_spec[j as int]);
        }
        assign.push(v);
        j += 1;
    }
    assert(polys_within(polys(assign@), 2));
    assert(polys(assign@).subrange(0, 14) =~= assign_spec);
    let st = build_state(&assign, 16);
    proof {
        let ps = polys(st@);
        assert forall|k: int| 0 <= k < 16 implies reduced(#[trigger] ps[k]) && ps[k].len() <= 2 by {
            if k >= 2 {
                assert(ps[k] == polys(assign@)[k - 2]);
            }
        }
    }
    proof {
        lemma_linear_state_ok(pos, st@);
    }
    let s = perm_plus_linear_poly(pos, &st);
    proof {
        assert(polys_within(polys(st@), 2));
        assert(reduced(polys(s@)[0]) && reduced(polys(s@)[1]));
        lemma_trim(s@[0]@);
        lemma_trim(s@[1]@);
    }
    let f0 = pl::trim(&s[0]);
    let f1 = pl::trim(&s[1]);
    proof {
        reveal(gcd_line_outs);
        assert((f0@, f1@) == gcd_line_outs(pos, b@, d@));
        lemma_pow_positive(3, (pos.r_f + pos.r_p) as nat);
    }
    let deg_inputs = pl::deg(&f0);
    let g = pl::gcd(&f0, &f1);
    let xroots = pl::roots(&g);
    proof {
        lemma_trim_canon(f0@);
        lemma_trim_canon(f1@);
        assert forall|x: u32| #![trigger gcd_x_ok(pos, b@, d@, x)] gcd_x_ok(pos, b@, d@, x) implies xroots@.contains(x) by {
            crate::poly_divides::lemma_common_root(f0@, f1@, g@, x as int);
            if g.len() == 0 {
                assert(g@ =~= Seq::<u32>::empty());
                crate::poly_divides::lemma_divided_by_zero(f0@);
                crate::poly_divides::lemma_divided_by_zero(f1@);
            }
            lemma_trim_canon(g@);
        }
        assert forall|k: int| 0 <= k < xroots.len() implies
            peval(f0@, #[trigger] xroots@[k] as int) % modulus() == 0
            && peval(f1@, xroots@[k] as int) % modulus() == 0
            && !(f0@.len() == 0 && f1@.len() == 0) by {
            crate::poly_divides::lemma_root_of_multiple(g@, f0@, xroots@[k] as int);
            crate::poly_divides::lemma_root_of_multiple(g@, f1@, xroots@[k] as int);
            if f0@.len() == 0 && f1@.len() == 0 {
                assert(crate::poly_spec::euclid(trim_spec(f0@), trim_spec(f1@)) == trim_spec(f0@));
            }
        }
    }
    let mut a: usize = 0;
    while a < xroots.len()
        invariant
            pos.wf(),
            b.len() == 14,
            d.len() == 14,
            a <= xroots.len(),
            (f0@, f1@) == gcd_line_outs(pos, b@, d@),
            forall|k: int| 0 <= k < xroots.len() ==> #[trigger] xroots[k] < P,
            forall|x: u32| #![trigger gcd_x_ok(pos, b@, d@, x)] gcd_x_ok(pos, b@, d@, x) ==> xroots@.contains(x),
            forall|k: int| 0 <= k < xroots.len() ==>
                peval(f0@, #[trigger] xroots@[k] as int) % modulus() == 0
                && peval(f1@, xroots@[k] as int) % modulus() == 0
                && !(f0@.len() == 0 && f1@.len() == 0),
            forall|k: int| 0 <= k < a ==> !gcd_x_ok(pos, b@, d@, #[trigger] xroots@[k]),
            deg_inputs as int == degree(f0@),
        decreases xroots.len() - a,
    {
        let xr = xroots[a];
        proof {
            assert(xroots@[a as int] == xr);
        }
        let mut free: Vec<u32> = Vec::new();
        let mut j: usize = 0;
        while j < 14
            invariant
                b.len() == 14,
                d.len() == 14,
                xr < P,
                j <= 14,
                free.len() == j,
                forall|k: int| 0 <= k < j ==> #[trigger] free@[k] == gcd_point(b@, d@, xr)[k],
            decreases 14 - j,
        {
            proof {
                lemma_mul_upper_bound(xr as int, P as int, d[j as int] as int, u32::MAX as int);
            }
            let v = ((b[j] as u64 + xr as u64 * d[j] as u64) % PU64) as u32;
            free.push(v);
            j += 1;
        }
        proof {
            assert(free@ =~= gcd_point(b@, d@, xr));
        }
        if verify_cico(pos, &free) {
            proof {
                reveal(gcd_x_ok);
                assert(gcd_x_ok(pos, b@, d@, xr));
            }
            return (Some(free), deg_inputs);
        }
        proof {
            reveal(gcd_x_ok);
            assert(!gcd_x_ok(pos, b@, d@, xr));
        }
        a += 1;
    }
    proof {
        assert forall|x: u32| !#[trigger] gcd_x_ok(pos, b@, d@, x) by {
            if gcd_x_ok(pos, b@, d@, x) {
                let k = choose|k: int| 0 <= k < xroots.len() && xroots@[k] == x;
                assert(!gcd_x_ok(pos, b@, d@, xroots@[k]));
            }
        }
    }
    (None, deg_inputs)
}

/// GCD route: restrict the free inputs to a line `free(X) = base + X * direction`,
/// so the two outputs become univariate in X; a shared root of their gcd
/// solves CICO-2. With `base` given, only that line is tried; otherwise up to
/// `lines` random lines, line `l` being `gcd_base(.., l) + X gcd_dir(.., l)`.
#[verifier::rlimit(60)]
pub fn solve_cico2_gcd(
    pos: &Poseidon1,
    base: Option<&[u32]>,
    direction: Option<&[u32]>,
    lines: usize,
    seed: u64,
) -> (r: (Option<Vec<u32>>, GcdInfo))
    requires
        pos.wf(),
        pos.alpha == 3,
        pow(3, (pos.r_f + pos.r_p) as nat) <= 4194304,
        base.is_some() ==> base.unwrap().len() >= 14,
        direction.is_some() ==> direction.unwrap().len() >= 14,
    ensures
        r.0.is_some() ==> cico_solves(pos, r.0.unwrap()@),
        1 <= r.1.lines_tried <= if lines > 1 { lines } else { 1 },
        base is Some ==> r.1.lines_tried == 1,
        r.0 is None ==> r.1.lines_tried == (if base is Some { 1 } else if lines > 1 { lines } else { 1 }),
        forall|l: nat| l + 1 < r.1.lines_tried ==> #[trigger] gcd_line_fails(pos, opt_words(base), opt_words(direction), seed, l),
        r.0 is None ==> gcd_line_fails(pos, opt_words(base), opt_words(direction), seed, (r.1.lines_tried - 1) as nat),
        r.0 matches Some(v) ==> gcd_line_gives(pos, opt_words(base), opt_words(direction), seed, (r.1.lines_tried - 1) as nat, v@),
        r.1.deg_inputs as int == gcd_line_degree(pos, opt_words(base), opt_words(direction), seed, (r.1.lines_tried - 1) as nat),
{
    let nfree: usize = 14;
    let mut rng = Rng::new(seed);
    let pinned = base.is_some();
    let total = if lines > 1 { lines } else { 1 };
    let mut deg_inputs: i64 = -1;
    let ghost bo = opt_words(base);
    let ghost dopt = opt_words(direction);
    let mut line: usize = 0;
    proof {
        reveal(gcd_line_start);
        assert(gcd_line_start(bo, dopt, 0) == 0);
    }
    while line < total
        invariant
            pos.wf(),
            pos.alpha == 3,
            pow(3, (pos.r_f + pos.r_p) as nat) <= 4194304,
            base.is_some() ==> base.unwrap().len() >= 14,
            direction.is_some() ==> direction.unwrap().len() >= 14,
            total >= 1,
            total == if lines > 1 { lines } else { 1 },
            line <= total,
            nfree == 14,
            pinned == base.is_some(),
            bo == (opt_words(base)),
            dopt == (opt_words(direction)),
            rng.0 == crate::mds_family::splitmix_state(seed, gcd_line_start(bo, dopt, line as nat)),
            pinned ==> line == 0,
            forall|l: nat| l < line ==> #[trigger] gcd_line_fails(pos, bo, dopt, seed, l),
            line > 0 ==> deg_inputs as int == gcd_line_degree(pos, bo, dopt, seed, (line - 1) as nat),
        decreases total - line,
    {
        let (b, d) = draw_line(&mut rng, base, direction, Ghost(seed), Ghost(line as nat));
        let (found, deg) = gcd_line(pos, &b, &d);
        deg_inputs = deg;
        proof {
            assert(deg_inputs as int == gcd_line_degree(pos, bo, dopt, seed, line as nat));
        }
        match found {
            Some(v) => {
                proof {
                    let x = choose|x: u32| #[trigger] gcd_x_ok(pos, b@, d@, x) && v@ == gcd_point(b@, d@, x);
                    lemma_gcd_x_ok_solves(pos, b@, d@, x);
                    reveal(gcd_line_gives);
                    assert(gcd_line_gives(pos, bo, dopt, seed, line as nat, v@));
                }
                let info = GcdInfo { lines_tried: line + 1, deg_inputs };
                proof {
                    assert((info.lines_tried - 1) as nat == line as nat);
                }
                return (Some(v), info);
            },
            None => {},
        }
        proof {
            reveal(gcd_line_fails);
            assert(gcd_line_fails(pos, bo, dopt, seed, line as nat));
        }
        if pinned {
            let info = GcdInfo { lines_tried: line + 1, deg_inputs };
            proof {
                assert(line == 0);
            }
            return (None, info);
        }
        line += 1;
    }
    (None, GcdInfo { lines_tried: total, deg_inputs })
}

/// The fixed words of the degree measurement: the first two free words
/// vary, the other twelve are drawn in turn from the stream of `seed`.
pub open spec fn resdeg_fixed(seed: u64) -> Seq<u32> {
    Seq::new(
        14,
        |j: int|
            if j < 2 {
                0u32
            } else {
                ((splitmix_mix(crate::mds_family::splitmix_state(seed, (j - 1) as nat)) as int) % (P as int)) as u32
            },
    )
}

/// `Res_Y(out0, out1)` with the first free word set to `X = 1, ..., n`.
pub open spec fn resdeg_samples(pos: &Poseidon1, fixed: Seq<u32>, n: int) -> Seq<u32> {
    Seq::new(n as nat, |i: int| res_spec(line_outs(pos, (i + 1) as u32, fixed).0, line_outs(pos, (i + 1) as u32, fixed).1) as u32)
}

/// The interpolant `e` through `n` samples takes the fresh resultant at the
/// twelve points `n + 1, ..., n + 12`.
pub open spec fn resdeg_stable(pos: &Poseidon1, fixed: Seq<u32>, e: Seq<u32>, n: int) -> bool {
    forall|k: int| 1 <= k <= 12 ==> #[trigger] (peval(e, n + k) % modulus()) == res_spec(
        line_outs(pos, (n + k) as u32, fixed).0,
        line_outs(pos, (n + k) as u32, fixed).1,
    )
}

/// The degree the doubling schedule settles on, from `n` samples on: the
/// degree of the interpolant through `min(n, cap)` samples once it is
/// stable or the cap is reached, else the schedule from `2 n`.
pub open spec fn resdeg_measure(pos: &Poseidon1, fixed: Seq<u32>, n: nat, cap: nat) -> int
    decreases (if n < cap { cap - n } else { 0 }),
{
    let m: nat = if n < cap { n } else { cap };
    let e = crate::rootvar::elim_spec(crate::rootgrid::grid_xs(m as int), resdeg_samples(pos, fixed, m as int));
    if n == 0 || m >= cap || resdeg_stable(pos, fixed, e, m as int) {
        crate::poly_spec::degree(e)
    } else {
        resdeg_measure(pos, fixed, 2 * n, cap)
    }
}

/// Degree of `R(X) = Res_Y(out0, out1)` for the two-variable system, by
/// interpolation on doubling sets of nodes until 12 further points agree.
pub fn measure_resultant_degree(pos: &Poseidon1, seed: u64) -> (d: i64)
    requires
        pos.wf(),
        pos.alpha == 3,
        pow(3, (pos.r_f + pos.r_p) as nat) <= 2187,
    ensures
        -1 <= d < 2 * pow(3, (pos.r_f + pos.r_p) as nat) * pow(3, (pos.r_f + pos.r_p) as nat) + 1,
        d == resdeg_measure(pos, resdeg_fixed(seed), 16,
            (2 * pow(3, (pos.r_f + pos.r_p) as nat) * pow(3, (pos.r_f + pos.r_p) as nat) + 1) as nat),
{
    let px: usize = 0;
    let py: usize = 1;
    let nfree: usize = 14;
    let mut rng = Rng::new(seed);
    let mut fixed: Vec<u32> = Vec::new();
    let mut j: usize = 0;
    while j < nfree
        invariant
            nfree == 14,
            px == 0,
            py == 1,
            j <= nfree,
            fixed.len() == j,
            forall|k: int| 0 <= k < j ==> #[trigger] fixed[k] < P,
            forall|k: int| 0 <= k < j ==> #[trigger] fixed@[k] == resdeg_fixed(seed)[k],
            rng.0 == crate::mds_family::splitmix_state(seed, (if j < 2 { 0 } else { j - 2 }) as nat),
        decreases nfree - j,
    {
        if j != px && j != py {
            let v = rng.field();
            proof {
                assert(crate::mds_family::splitmix_state(seed, (j - 1) as nat)
                    == crate::poly::splitmix_advance(crate::mds_family::splitmix_state(seed, (j - 2) as nat)));
            }
            fixed.push(v);
        } else {
            fixed.push(0);
        }
        j += 1;
    }
    proof {
        assert(fixed@ =~= resdeg_fixed(seed));
        lemma_pow_positive(3, (pos.r_f + pos.r_p) as nat);
    }
    let rounds = pos.rc_n.len();
    let fwd = pow3(rounds);
    assert(2 * fwd * fwd <= 2 * 2187 * 2187) by (nonlinear_arith)
        requires
            1 <= fwd <= 2187;
    let hard_cap: usize = 2 * fwd * fwd + 1;
    let guard: u32 = 12;
    let mut n: usize = 16;
    let ghost fx = resdeg_fixed(seed);
    let ghost cap: nat = hard_cap as nat;
    loop
        invariant
            pos.wf(),
            pos.alpha == 3,
            pow(3, (pos.r_f + pos.r_p) as nat) <= 2187,
            fwd == pow(3, (pos.r_f + pos.r_p) as nat),
            1 <= fwd <= 2187,
            hard_cap == 2 * fwd * fwd + 1,
            2 * fwd * fwd <= 2 * 2187 * 2187,
            fixed.len() == 14,
            forall|k: int| 0 <= k < 14 ==> #[trigger] fixed[k] < P,
            fixed@ == fx,
            fx == resdeg_fixed(seed),
            cap == hard_cap,
            1 <= n,
            guard == 12,
            resdeg_measure(pos, fx, n as nat, cap) == resdeg_measure(pos, fx, 16, cap),
        decreases hard_cap + 1 - (if n < hard_cap { n } else { hard_cap }),
    {
        if n > hard_cap {
            proof {
                assert(resdeg_measure(pos, fx, n as nat, cap) == resdeg_measure(pos, fx, hard_cap as nat, cap));
            }
            n = hard_cap;
        }
        let mut xs: Vec<u32> = Vec::new();
        let mut ys: Vec<u32> = Vec::new();
        let mut x: u32 = 1;
        while (x as usize) <= n
            invariant
                pos.wf(),
                pos.alpha == 3,
                pow(3, (pos.r_f + pos.r_p) as nat) <= 2187,
                fixed.len() == 14,
                forall|k: int| 0 <= k < 14 ==> #[trigger] fixed[k] < P,
                1 <= n <= hard_cap <= 2 * 2187 * 2187 + 1,
                1 <= x <= n + 1,
                xs.len() == ys.len() == x - 1,
                reduced(xs@),
                reduced(ys@),
                forall|i: int| 0 <= i < xs.len() ==> #[trigger] xs@[i] == i + 1,
                forall|i: int| 0 <= i < ys.len() ==> #[trigger] ys@[i] as int == res_spec(
                    line_outs(pos, (i + 1) as u32, fixed@).0,
                    line_outs(pos, (i + 1) as u32, fixed@).1,
                ),
            decreases n + 1 - x,
        {
            let v = res_at(pos, x, &fixed);
            xs.push(x);
            ys.push(v);
            x += 1;
        }
        proof {
            assert(xs@ =~= crate::rootgrid::grid_xs(n as int));
            assert(ys@ =~= resdeg_samples(pos, fx, n as int));
        }
        let r_poly = pl::interpolate(&xs, &ys);
        let ghost e = r_poly@;
        let mut stable = true;
        let mut k: u32 = 1;
        while k <= guard
            invariant
                pos.wf(),
                pos.alpha == 3,
                pow(3, (pos.r_f + pos.r_p) as nat) <= 2187,
                fixed.len() == 14,
                forall|t: int| 0 <= t < 14 ==> #[trigger] fixed[t] < P,
                n <= 2 * 2187 * 2187 + 1,
                guard == 12,
                1 <= k <= guard + 1,
                canon(r_poly@),
                r_poly@ == e,
                stable == (forall|k2: int| 1 <= k2 < k ==> #[trigger] (peval(e, n + k2) % modulus()) == res_spec(
                    line_outs(pos, (n + k2) as u32, fixed@).0,
                    line_outs(pos, (n + k2) as u32, fixed@).1,
                )),
            decreases guard + 1 - k,
        {
            let xk = n as u32 + k;
            let fresh = res_at(pos, xk, &fixed);
            if pl::eval(&r_poly, xk) != fresh {
                stable = false;
            }
            proof {
                assert(xk as int == n + k);
                if stable {
                    assert forall|k2: int| 1 <= k2 < k + 1 implies #[trigger] (peval(e, n + k2) % modulus()) == res_spec(
                        line_outs(pos, (n + k2) as u32, fixed@).0,
                        line_outs(pos, (n + k2) as u32, fixed@).1,
                    ) by {}
                }
            }
            k += 1;
        }
        proof {
            assert(stable == resdeg_stable(pos, fx, e, n as int));
            assert(e == crate::rootvar::elim_spec(crate::rootgrid::grid_xs(n as int), resdeg_samples(pos, fx, n as int)));
        }
        if n >= hard_cap || stable {
            proof {
                lemma_trim(r_poly@);
                assert(resdeg_measure(pos, fx, n as nat, cap) == crate::poly_spec::degree(e));
            }
            return pl::deg(&r_poly);
        }
        proof {
            assert(resdeg_measure(pos, fx, n as nat, cap) == resdeg_measure(pos, fx, (2 * n) as nat, cap));
        }
        n = n * 2;
    }
}

/// `Res_Y(out0, out1)` with the first free word set to `xv`.
fn res_at(pos: &Poseidon1, xv: u32, fixed: &[u32]) -> (r: u32)
    requires
        pos.wf(),
        pos.alpha == 3,
        pow(3, (pos.r_f + pos.r_p) as nat) <= 2187,
        xv < P,
        fixed.len() == 14,
        forall|j: int| 0 <= j < 14 ==> #[trigger] fixed[j] < P,
    ensures
        r as int == res_spec(line_outs(pos, xv, fixed@).0, line_outs(pos, xv, fixed@).1),
        r < P,
{
    let (f0, f1) = outs_at_x(pos, xv, fixed);
    pl::resultant(&f0, &f1)
}

// ---------------------------------------------------------------------------
// Evaluating the symbolic permutation
// ---------------------------------------------------------------------------

/// The field elements a state of polynomials takes at `x`.
pub open spec fn eval_state(s: Seq<Seq<u32>>, x: int) -> Seq<int> {
    Seq::new(s.len(), |i: int| peval(s[i], x) % modulus())
}

proof fn lemma_poly_dot_eval(row: Seq<u32>, s: Seq<Seq<u32>>, n: int, x: int)
    requires
        0 <= n <= s.len(),
    ensures
        peval(poly_dot(row, s, n), x) % modulus() == dot(row, eval_state(s, x), n) % modulus(),
    decreases n,
{
    let p = modulus();
    if n == 0 {
        assert(peval(Seq::<u32>::empty(), x) == 0);
    } else {
        lemma_poly_dot_eval(row, s, n - 1, x);
        let prev = poly_dot(row, s, n - 1);
        let c = row[n - 1] as int;
        let f = s[n - 1];
        lemma_peval_add(prev, scalar_spec(f, c), x);
        lemma_peval_scalar(f, c, x);
        lemma_mul_mod_noop_right(c, peval(f, x), p);
        lemma_add_mod_noop(peval(prev, x), peval(scalar_spec(f, c), x), p);
        lemma_add_mod_noop(peval(prev, x), c * peval(f, x), p);
        lemma_add_mod_noop(dot(row, eval_state(s, x), n - 1), c * (peval(f, x) % p), p);
        assert(eval_state(s, x)[n - 1] == peval(f, x) % p);
    }
}

proof fn lemma_eval_mds(m: Seq<Seq<u32>>, s: Seq<Seq<u32>>, x: int)
    requires
        s.len() == 16,
    ensures
        eval_state(poly_mds(m, s), x) == mds_layer(m, eval_state(s, x)),
{
    assert forall|i: int| 0 <= i < 16 implies #[trigger] eval_state(poly_mds(m, s), x)[i] == mds_layer(m, eval_state(s, x))[i] by {
        lemma_poly_dot_eval(m[i], s, 16, x);
    }
    assert(eval_state(poly_mds(m, s), x) =~= mds_layer(m, eval_state(s, x)));
}

proof fn lemma_eval_add_rc(s: Seq<Seq<u32>>, rc: Seq<u32>, x: int)
    requires
        s.len() == 16,
    ensures
        eval_state(poly_add_rc(s, rc), x) == add_rc(eval_state(s, x), rc),
{
    let p = modulus();
    assert forall|i: int| 0 <= i < 16 implies #[trigger] eval_state(poly_add_rc(s, rc), x)[i] == add_rc(eval_state(s, x), rc)[i] by {
        let c = seq![rc[i]];
        lemma_peval_add(s[i], c, x);
        assert(peval(c.drop_first(), x) == 0);
        assert(peval(c, x) == rc[i] as int + x * 0);
        lemma_add_mod_noop(peval(s[i], x), rc[i] as int, p);
        lemma_mod_twice(peval(s[i], x), p);
        lemma_add_mod_noop(peval(s[i], x) % p, rc[i] as int, p);
    }
    assert(eval_state(poly_add_rc(s, rc), x) =~= add_rc(eval_state(s, x), rc));
}

proof fn lemma_eval_cube(f: Seq<u32>, x: int)
    ensures
        peval(cube_poly(f), x) % modulus() == sbox(peval(f, x) % modulus()),
{
    let p = modulus();
    let v = peval(f, x);
    lemma_peval_mul(mul_spec(f, f), f, x);
    lemma_peval_mul(f, f, x);
    lemma_mul_mod_noop_left(peval(mul_spec(f, f), x), v, p);
    lemma_mul_mod_noop_left(v * v, v, p);
    lemma_mul_mod_noop(v, v, p);
    lemma_mul_mod_noop_left((v % p) * (v % p), v % p, p);
    lemma_mul_mod_noop_right((v * v) % p, v, p);
    lemma_mul_mod_noop_left(v * v, v, p);
    lemma_mul_mod_noop_right(v * v, v, p);
}

proof fn lemma_eval_full_round(m: Seq<Seq<u32>>, rc: Seq<u32>, s: Seq<Seq<u32>>, x: int)
    requires
        s.len() == 16,
    ensures
        eval_state(poly_full_round(m, rc, s), x) == full_round(m, rc, eval_state(s, x)),
        poly_full_round(m, rc, s).len() == 16,
{
    let a = poly_add_rc(s, rc);
    let c = Seq::new(16, |i: int| cube_poly(a[i]));
    lemma_eval_add_rc(s, rc, x);
    assert(poly_full_round(m, rc, s) == poly_mds(m, c));
    lemma_eval_mds(m, c, x);
    let ea = add_rc(eval_state(s, x), rc);
    assert forall|i: int| 0 <= i < 16 implies #[trigger] eval_state(c, x)[i] == sbox(ea[i]) by {
        lemma_eval_cube(a[i], x);
        assert(eval_state(a, x)[i] == ea[i]);
    }
    assert(eval_state(c, x) =~= Seq::new(16, |i: int| sbox(ea[i])));
}

proof fn lemma_eval_partial_round(m: Seq<Seq<u32>>, rc: Seq<u32>, s: Seq<Seq<u32>>, x: int)
    requires
        s.len() == 16,
    ensures
        eval_state(poly_partial_round(m, rc, s), x) == partial_round(m, rc, eval_state(s, x)),
        poly_partial_round(m, rc, s).len() == 16,
{
    let a = poly_add_rc(s, rc);
    let c = a.update(0, cube_poly(a[0]));
    lemma_eval_add_rc(s, rc, x);
    lemma_eval_mds(m, c, x);
    let ea = add_rc(eval_state(s, x), rc);
    lemma_eval_cube(a[0], x);
    assert(eval_state(a, x)[0] == ea[0]);
    assert forall|i: int| 0 <= i < 16 implies #[trigger] eval_state(c, x)[i] == ea.update(0, sbox(ea[0]))[i] by {
        if i != 0 {
            assert(eval_state(a, x)[i] == ea[i]);
        }
    }
    assert(eval_state(c, x) =~= ea.update(0, sbox(ea[0])));
}

proof fn lemma_eval_rounds(
    rcs: Seq<Seq<u32>>,
    m: Seq<Seq<u32>>,
    half: int,
    r_p: int,
    s: Seq<Seq<u32>>,
    k: int,
    x: int,
)
    requires
        s.len() == 16,
    ensures
        eval_state(poly_rounds(rcs, m, half, r_p, s, k), x) == rounds(rcs, m, half, r_p, eval_state(s, x), k),
        poly_rounds(rcs, m, half, r_p, s, k).len() == 16,
    decreases k,
{
    if k > 0 {
        lemma_eval_rounds(rcs, m, half, r_p, s, k - 1, x);
        let prev = poly_rounds(rcs, m, half, r_p, s, k - 1);
        if half <= k - 1 < half + r_p {
            lemma_eval_partial_round(m, rcs[k - 1], prev, x);
        } else {
            lemma_eval_full_round(m, rcs[k - 1], prev, x);
        }
    }
}

/// Evaluating the symbolic permutation (no initial linear layer) at `x`
/// gives the numeric permutation of the state evaluated at `x`.
pub proof fn lemma_symbolic_plain_perm_evaluates(
    rcs: Seq<Seq<u32>>,
    m: Seq<Seq<u32>>,
    r_f: int,
    r_p: int,
    s: Seq<Seq<u32>>,
    x: int,
)
    requires
        s.len() == 16,
    ensures
        eval_state(poly_perm(rcs, m, r_f, r_p, s), x) == poseidon_perm(rcs, m, r_f, r_p, eval_state(s, x), false),
        poly_perm(rcs, m, r_f, r_p, s).len() == 16,
{
    lemma_eval_rounds(rcs, m, r_f / 2, r_p, s, 2 * (r_f / 2) + r_p, x);
}

/// Evaluating the symbolic permutation at `x` gives the permutation of the
/// state evaluated at `x`: the polynomial run over F_p[X] agrees with the
/// numeric permutation on every specialisation of X.
pub proof fn lemma_symbolic_perm_evaluates(
    rcs: Seq<Seq<u32>>,
    m: Seq<Seq<u32>>,
    r_f: int,
    r_p: int,
    s: Seq<Seq<u32>>,
    x: int,
)
    requires
        s.len() == 16,
    ensures
        eval_state(poly_perm_linear(rcs, m, r_f, r_p, s), x) == poseidon_perm(rcs, m, r_f, r_p, eval_state(s, x), true),
{
    lemma_eval_mds(m, s, x);
    assert(poly_mds(m, s).len() == 16);
    lemma_eval_rounds(rcs, m, r_f / 2, r_p, poly_mds(m, s), 2 * (r_f / 2) + r_p, x);
}

/// A word of the line `b + X d` at `x`, reduced, is the value at `x` of the
/// polynomial `b mod p + (d mod p) X`.
proof fn lemma_line_word(bk: int, dk: int, x: int)
    ensures
        ((bk + x * dk) % modulus()) % modulus() == ((bk % modulus()) + x * (dk % modulus())) % modulus(),
{
    let p = modulus();
    lemma_mod_twice(bk + x * dk, p);
    lemma_add_mod_noop(bk, x * dk, p);
    lemma_add_mod_noop(bk % p, x * (dk % p), p);
    lemma_mod_twice(bk, p);
    lemma_mul_mod_noop_right(x, dk, p);
}

/// The GCD route finds a planted solution: when `sol` solves CICO-2 and lies
/// on the line `b + X d` at some `x0 < p`, and the two output words on that
/// line are not both the zero polynomial, `x0` is an accepted root of the
/// line, so the line does not fail and `solve_cico2_gcd` with `b` and `d`
/// pinned returns a solution on it.
pub proof fn law_gcd_route_finds_planted(pos: &Poseidon1, b: Seq<u32>, d: Seq<u32>, seed: u64, x0: u32, sol: Seq<u32>)
    requires
        pos.wf(),
        b.len() == 14,
        d.len() == 14,
        sol.len() == 14,
        x0 < P,
        forall|j: int| 0 <= j < 14 ==> #[trigger] ((sol[j] as int) % modulus()) == ((b[j] as int + (x0 as int) * (d[j] as int)) % modulus()),
        cico_solves(pos, sol),
        !(gcd_line_outs(pos, b, d).0.len() == 0 && gcd_line_outs(pos, b, d).1.len() == 0),
    ensures
        gcd_x_ok(pos, b, d, x0),
        !gcd_line_fails(pos, Some(b), Some(d), seed, 0),
{
    let p = modulus();
    let pt = gcd_point(b, d, x0);
    assert(crate::cico_input(pt) =~= crate::cico_input(sol)) by {
        assert forall|j: int| 0 <= j < 14 implies #[trigger] ((pt[j] as int) % p) == (sol[j] as int) % p by {
            lemma_mod_twice(b[j] as int + (x0 as int) * (d[j] as int), p);
        }
    }
    assert(cico_solves(pos, pt));
    let assign = Seq::new(14, |k: int| seq![b[k] % P, d[k] % P]);
    let st = cico_poly_state(assign);
    let w = crate::cico_input(pt);
    assert forall|i: int| 0 <= i < 16 implies (#[trigger] w[i] as int) % modulus() == peval(st[i], x0 as int) % modulus() by {
        reveal_with_fuel(peval, 3);
        if i < 2 {
            assert(st[i].drop_first().len() == 0);
            lemma_mod_twice(w[i] as int, p);
        } else {
            let k = i - 2;
            assert(st[i] == seq![b[k] % P, d[k] % P]);
            assert(st[i].drop_first().drop_first().len() == 0);
            assert(peval(st[i], x0 as int) == (b[k] % P) as int + (x0 as int) * ((d[k] % P) as int + (x0 as int) * 0));
            assert(w[i] as int == (pt[k] as int) % p);
            lemma_mod_twice(b[k] as int + (x0 as int) * (d[k] as int), p);
            lemma_line_word(b[k] as int, d[k] as int, x0 as int);
        }
    }
    law_symbolic_perm_exact(*pos, st, w, x0 as int);
    let out = poly_perm_linear(pos.rc_model(), pos.mds_model(), pos.r_f as int, pos.r_p as int, st);
    reveal(gcd_line_outs);
    assert(gcd_line_outs(pos, b, d) == (trim_spec(out[0]), trim_spec(out[1])));
    crate::poly::lemma_peval_trim(out[0], x0 as int);
    crate::poly::lemma_peval_trim(out[1], x0 as int);
    assert(peval(out[0], x0 as int) % p == cico_output(pos, pt)[0]);
    assert(peval(out[1], x0 as int) % p == cico_output(pos, pt)[1]);
    reveal(gcd_x_ok);
    assert(gcd_x_ok(pos, b, d, x0));
    reveal(gcd_line_fails);
    assert(gcd_base(Some(b), Some(d), seed, 0) =~= b);
    assert(gcd_dir(Some(b), Some(d), seed, 0) =~= d);
}

/// The symbolic permutation is exact: for any numeric state `w` that is the
/// symbolic state `s` evaluated at `x`, evaluating the permutation with
/// initial linear layer run over F_p[X] at `x` gives, word for word, what the
/// numeric permutation with initial linear layer gives on `w`.
pub proof fn law_symbolic_perm_exact(pos: Poseidon1, s: Seq<Seq<u32>>, w: Seq<u32>, x: int)
    requires
        pos.wf(),
        s.len() == 16,
        w.len() == 16,
        forall|i: int| 0 <= i < 16 ==> (#[trigger] w[i] as int) % modulus() == peval(s[i], x) % modulus(),
    ensures
        forall|j: int|
            0 <= j < 16 ==> peval(
                #[trigger] poly_perm_linear(pos.rc_model(), pos.mds_model(), pos.r_f as int, pos.r_p as int, s)[j],
                x,
            ) % modulus() == pos.perm_spec(crate::poseidon_spec::reduce_words(w), true)[j],
{
    let rcs = pos.rc_model();
    let m = pos.mds_model();
    let out = poly_perm_linear(rcs, m, pos.r_f as int, pos.r_p as int, s);
    assert(crate::poseidon_spec::reduce_words(w) =~= eval_state(s, x));
    lemma_symbolic_perm_evaluates(rcs, m, pos.r_f as int, pos.r_p as int, s, x);
    assert(poly_mds(m, s).len() == 16);
    lemma_symbolic_plain_perm_evaluates(rcs, m, pos.r_f as int, pos.r_p as int, poly_mds(m, s), x);
    assert(out.len() == 16);
    assert forall|j: int| 0 <= j < 16 implies peval(#[trigger] out[j], x) % modulus() == pos.perm_spec(
        crate::poseidon_spec::reduce_words(w),
        true,
    )[j] by {
        assert(eval_state(out, x)[j] == peval(out[j], x) % modulus());
    }
}

/// The low zero bits of `x` from bit `k` on, given that the `k` below are
/// zero, capped at 31.
pub open spec fn low_zeros_from(x: u32, k: nat) -> nat
    decreases 31 - k,
{
    if k >= 31 {
        31
    } else if (x as int) % (pow2(k + 1) as int) != 0 {
        k
    } else {
        low_zeros_from(x, k + 1)
    }
}

/// How many low bits of `x` are zero, capped at 31.
pub open spec fn low_zeros(x: u32) -> nat {
    low_zeros_from(x, 0)
}

/// A multiple of `2^b` is a multiple of `2^a` for `a <= b`.
proof fn lemma_pow2_multiple(x: int, a: nat, b: nat)
    requires
        a <= b,
        x % (pow2(b) as int) == 0,
    ensures
        x % (pow2(a) as int) == 0,
{
    lemma_pow2_pos(b);
    lemma_pow2_pos(a);
    lemma_pow2_adds(a, (b - a) as nat);
    lemma_fundamental_div_mod(x, pow2(b) as int);
    let q = x / (pow2(b) as int);
    assert(x == (q * (pow2((b - a) as nat) as int)) * (pow2(a) as int)) by (nonlinear_arith)
        requires
            x == (pow2(b) as int) * q + x % (pow2(b) as int),
            x % (pow2(b) as int) == 0,
            pow2(b) == pow2(a) * pow2((b - a) as nat),
    ;
    lemma_mod_multiples_basic(q * (pow2((b - a) as nat) as int), pow2(a) as int);
}

/// The `k` that `low_zero_bits` promises is `low_zeros`.
proof fn lemma_low_zeros(x: u32, k: nat, j: nat)
    requires
        k <= 31,
        j <= k,
        (x as int) % (pow2(k) as int) == 0,
        k < 31 ==> (x as int) % (pow2(k + 1) as int) != 0,
    ensures
        low_zeros_from(x, j) == k,
    decreases k - j,
{
    if j < k {
        lemma_pow2_multiple(x as int, j + 1, k);
        lemma_low_zeros(x, k, j + 1);
    }
}

/// How many low bits of `x` are zero, capped at 31 (31 for zero): the
/// quality of a relaxed CICO residual word.
pub fn low_zero_bits(x: u32) -> (k: u32)
    ensures
        k <= 31,
        (x as int) % pow2(k as nat) as int == 0,
        k < 31 ==> (x as int) % pow2((k + 1) as nat) as int != 0,
        k == low_zeros(x),
{
    let mut k: u32 = 0;
    let mut v: u32 = x;
    proof {
        lemma2_to64();
    }
    while k < 31 && v % 2 == 0
        invariant
            k <= 31,
            (x as int) == (v as int) * (pow2(k as nat) as int),
            pow2(k as nat) > 0,
        decreases 31 - k,
    {
        proof {
            lemma_pow2_adds(k as nat, 1);
            lemma2_to64();
            lemma_fundamental_div_mod(v as int, 2);
            assert((v as int) * (pow2(k as nat) as int) == ((v / 2) as int) * (pow2((k + 1) as nat) as int)) by (nonlinear_arith)
                requires
                    v % 2 == 0,
                    pow2((k + 1) as nat) == pow2(k as nat) * 2,
                    (v as int) == 2 * ((v / 2) as int) + (v % 2) as int;
        }
        v = v / 2;
        k += 1;
    }
    proof {
        let q = pow2(k as nat) as int;
        lemma_mod_multiples_basic(v as int, q);
        assert((x as int) % q == 0) by (nonlinear_arith)
            requires
                (x as int) == (v as int) * q,
                q > 0,
                ((v as int) * q) % q == 0;
        if k < 31 {
            lemma_pow2_adds(k as nat, 1);
            lemma2_to64();
            let q2 = pow2((k + 1) as nat) as int;
            assert(q2 == 2 * q);
            assert(v % 2 == 1);
            lemma_fundamental_div_mod(v as int, 2);
            let h = (v / 2) as int;
            assert((x as int) == h * q2 + q) by (nonlinear_arith)
                requires
                    (x as int) == (v as int) * q,
                    (v as int) == 2 * h + 1,
                    q2 == 2 * q;
            lemma_pow2_pos(k as nat);
            assert(q2 * h + q == (x as int)) by (nonlinear_arith)
                requires
                    (x as int) == h * q2 + q;
            lemma_mod_multiples_vanish(h, q, q2);
            lemma_small_mod(q as nat, q2 as nat);
            assert((x as int) % q2 == q);
            lemma_pow2_pos(k as nat);
            assert((x as int) % pow2((k + 1) as nat) as int != 0);
        }
    }
    proof {
        lemma_low_zeros(x, k as nat, 0);
    }
    k
}

/// The free words of brute-force trial `i`: the first two count `i` in
/// base `p`, the others are those of `base`.
pub open spec fn trial_free(base: Seq<u32>, i: int) -> Seq<u32> {
    base.update(0, (i % (P as int)) as u32).update(1, ((i / (P as int)) % (P as int)) as u32)
}

/// The CICO residual of trial `i`.
pub open spec fn trial_residual(pos: &Poseidon1, base: Seq<u32>, i: int) -> (u32, u32) {
    (cico_output(pos, trial_free(base, i))[0] as u32, cico_output(pos, trial_free(base, i))[1] as u32)
}

/// The relaxed quality of trial `i`: the low zero bits both residual words share.
pub open spec fn trial_score(pos: &Poseidon1, base: Seq<u32>, i: int) -> nat {
    let r = trial_residual(pos, base, i);
    if low_zeros(r.0) < low_zeros(r.1) { low_zeros(r.0) } else { low_zeros(r.1) }
}

/// The best quality among the first `n` trials (0 for none).
pub open spec fn best_score(pos: &Poseidon1, base: Seq<u32>, n: int) -> nat
    decreases n,
{
    if n <= 0 {
        0
    } else {
        let b = best_score(pos, base, n - 1);
        let t = trial_score(pos, base, n - 1);
        if t > b { t } else { b }
    }
}

/// The improvements among the first `n` trials, in order: each trial whose
/// quality beats all before it, with its quality and residual.
pub open spec fn improvements(pos: &Poseidon1, base: Seq<u32>, n: int) -> Seq<(u32, u32, u32)>
    decreases n,
{
    if n <= 0 {
        Seq::empty()
    } else if trial_score(pos, base, n - 1) > best_score(pos, base, n - 1) {
        improvements(pos, base, n - 1).push((
            trial_score(pos, base, n - 1) as u32,
            trial_residual(pos, base, n - 1).0,
            trial_residual(pos, base, n - 1).1,
        ))
    } else {
        improvements(pos, base, n - 1)
    }
}

/// The last improving trial among the first `n`, if any.
pub open spec fn best_trial(pos: &Poseidon1, base: Seq<u32>, n: int) -> Option<int>
    decreases n,
{
    if n <= 0 {
        None
    } else if trial_score(pos, base, n - 1) > best_score(pos, base, n - 1) {
        Some(n - 1)
    } else {
        best_trial(pos, base, n - 1)
    }
}

/// What a brute-force relaxed CICO search found.
pub struct RelaxedSearch {
    /// The best quality, 0 where no trial scored above 0.
    pub best_m: u32,
    /// The free words of the first trial with the best quality (`base` for none).
    pub best_free: Vec<u32>,
    /// Its residual (`(u32::MAX, u32::MAX)` for none).
    pub best_res: (u32, u32),
    /// Each improvement in turn: quality and residual.
    pub improvements: Vec<(u32, u32, u32)>,
}

/// Brute-force relaxed CICO search: runs trials `0, ..., trials - 1`, the
/// first two free words counting the trial in base `p`, and keeps the first
/// trial whose residual words share the most low zero bits.
pub fn relaxed_search(pos: &Poseidon1, base: &[u32], trials: u64) -> (r: RelaxedSearch)
    requires
        pos.wf(),
        base.len() == 14,
    ensures
        r.best_m == best_score(pos, base@, trials as int),
        r.improvements@ == improvements(pos, base@, trials as int),
        match best_trial(pos, base@, trials as int) {
            Some(j) => r.best_free@ == trial_free(base@, j) && r.best_res == trial_residual(pos, base@, j),
            None => r.best_free@ == base@ && r.best_res == (u32::MAX, u32::MAX),
        },
{
    let mut free: Vec<u32> = Vec::new();
    let mut k: usize = 0;
    while k < 14
        invariant
            base.len() == 14,
            k <= 14,
            free@ == base@.subrange(0, k as int),
        decreases 14 - k,
    {
        free.push(base[k]);
        proof {
            assert(free@ =~= base@.subrange(0, k + 1));
        }
        k += 1;
    }
    proof {
        assert(free@ =~= base@);
    }
    let mut best_m: u32 = 0;
    let mut best_free = free.clone();
    let mut best_res: (u32, u32) = (u32::MAX, u32::MAX);
    let mut imps: Vec<(u32, u32, u32)> = Vec::new();
    let mut i: u64 = 0;
    proof {
        assert(best_free@ == base@);
    }
    while i < trials
        invariant
            pos.wf(),
            base.len() == 14,
            free.len() == 14,
            i <= trials,
            forall|w: int| 2 <= w < 14 ==> #[trigger] free@[w] == base@[w],
            best_m == best_score(pos, base@, i as int),
            imps@ == improvements(pos, base@, i as int),
            match best_trial(pos, base@, i as int) {
                Some(j) => best_free@ == trial_free(base@, j) && best_res == trial_residual(pos, base@, j),
                None => best_free@ == base@ && best_res == (u32::MAX, u32::MAX),
            },
        decreases trials - i,
    {
        free.set(0, (i % PU64) as u32);
        free.set(1, ((i / PU64) % PU64) as u32);
        proof {
            assert(free@ =~= trial_free(base@, i as int));
        }
        let (r0, r1) = crate::cico_residual(pos, &free);
        let m0 = low_zero_bits(r0);
        let m1 = low_zero_bits(r1);
        let m = if m0 < m1 { m0 } else { m1 };
        proof {
            assert((r0, r1) == trial_residual(pos, base@, i as int));
            assert(m == trial_score(pos, base@, i as int));
        }
        if m > best_m {
            best_m = m;
            best_free = free.clone();
            best_res = (r0, r1);
            imps.push((m, r0, r1));
            proof {
                assert(best_free@ == free@);
            }
        }
        i += 1;
    }
    RelaxedSearch { best_m, best_free, best_res, improvements: imps }
}

} // verus!
