//! Newton interpolation interpolates: the Newton form built from the divided
//! differences of `(xs, ys)` takes the value `ys[k]` at `xs[k]` whenever the
//! nodes are distinct.
use vstd::arithmetic::div_mod::*;
use vstd::arithmetic::mul::*;
use vstd::arithmetic::power::*;
use vstd::prelude::*;

use crate::field::{lemma_inverse, modulus};
use crate::poly::{divided_diff, newton_coefs, newton_form};
use crate::poly_divides::{lemma_eqm_add, lemma_eqm_mul_left};
use crate::poly_eval::{lemma_peval_add, lemma_peval_mul};
use crate::poly_ring::eqm;
use crate::poly_spec::{coef, inv_spec, lemma_unit_cancel, peval, reduced};

verus! {

/// The nodes are pairwise distinct.
pub open spec fn distinct_nodes(xs: Seq<u32>) -> bool {
    forall|i: int, j: int| 0 <= i < j < xs.len() ==> xs[i] != xs[j]
}

/// The divided difference `f[x_a, ..., x_b]`, reduced.
pub open spec fn dd_range(xs: Seq<u32>, ys: Seq<u32>, a: int, b: int) -> int
    decreases b - a,
{
    if b <= a {
        (ys[a] as int) % modulus()
    } else {
        (((dd_range(xs, ys, a + 1, b) - dd_range(xs, ys, a, b - 1)) % modulus()) * inv_spec(
            ((xs[b] as int) - (xs[a] as int)) % modulus(),
        )) % modulus()
    }
}

/// `(x - x_a) ... (x - x_e)`, one for an empty range.
pub open spec fn node_prod(xs: Seq<u32>, a: int, e: int, x: int) -> int
    decreases e - a + 1,
{
    if e < a {
        1
    } else {
        node_prod(xs, a, e - 1, x) * (x - xs[e])
    }
}

/// The Newton interpolant on the nodes `a ..= b`, as a sum.
pub open spec fn newton_sum(xs: Seq<u32>, ys: Seq<u32>, a: int, b: int, x: int) -> int
    decreases b - a + 1,
{
    if b < a {
        0
    } else {
        newton_sum(xs, ys, a, b - 1, x) + dd_range(xs, ys, a, b) * node_prod(xs, a, b - 1, x)
    }
}

/// The passes of Newton's scheme compute the divided differences.
proof fn lemma_passes(xs: Seq<u32>, ys: Seq<u32>, j: nat, i: int)
    requires
        j <= i < xs.len(),
        xs.len() == ys.len(),
    ensures
        divided_diff(xs, ys, j, i) == dd_range(xs, ys, i - j, i),
    decreases j,
{
    if j > 0 {
        lemma_passes(xs, ys, (j - 1) as nat, i);
        lemma_passes(xs, ys, (j - 1) as nat, i - 1);
    }
}

/// Passes beyond an index leave it alone.
proof fn lemma_passes_settle(xs: Seq<u32>, ys: Seq<u32>, j: nat, i: int)
    requires
        0 <= i <= j,
    ensures
        divided_diff(xs, ys, j, i) == divided_diff(xs, ys, i as nat, i),
    decreases j,
{
    if j > i {
        lemma_passes_settle(xs, ys, (j - 1) as nat, i);
    }
}

/// The Newton coefficients are the divided differences from the first node.
proof fn lemma_newton_coef(xs: Seq<u32>, ys: Seq<u32>, i: int)
    requires
        0 <= i < xs.len(),
        xs.len() == ys.len(),
    ensures
        newton_coefs(xs, ys)(i) == dd_range(xs, ys, 0, i),
        0 <= dd_range(xs, ys, 0, i) < modulus(),
{
    lemma_passes_settle(xs, ys, (xs.len() - 1) as nat, i);
    lemma_passes(xs, ys, i as nat, i);
    lemma_dd_range_bound(xs, ys, 0, i);
}

proof fn lemma_dd_range_bound(xs: Seq<u32>, ys: Seq<u32>, a: int, b: int)
    ensures
        0 <= dd_range(xs, ys, a, b) < modulus(),
{
    if b <= a {
        lemma_mod_bound(ys[a] as int, modulus());
    } else {
        lemma_mod_bound(
            ((dd_range(xs, ys, a + 1, b) - dd_range(xs, ys, a, b - 1)) % modulus()) * inv_spec(
                ((xs[b] as int) - (xs[a] as int)) % modulus(),
            ),
            modulus(),
        );
    }
}

/// The recurrence of divided differences, cleared of its division:
/// `(x_b - x_a) f[x_a..x_b] == f[x_{a+1}..x_b] - f[x_a..x_{b-1}]`.
proof fn lemma_dd_recurrence(xs: Seq<u32>, ys: Seq<u32>, a: int, b: int)
    requires
        0 <= a < b < xs.len(),
        reduced(xs),
        xs[a] != xs[b],
    ensures
        eqm(((xs[b] as int) - (xs[a] as int)) * dd_range(xs, ys, a, b), dd_range(xs, ys, a + 1, b) - dd_range(xs, ys, a, b - 1)),
{
    let p = modulus();
    let w = (xs[b] as int) - (xs[a] as int);
    let t = w % p;
    let iv = inv_spec(t);
    let diff = dd_range(xs, ys, a + 1, b) - dd_range(xs, ys, a, b - 1);
    let d = dd_range(xs, ys, a, b);
    lemma_small_mod(xs[a] as nat, p as nat);
    lemma_small_mod(xs[b] as nat, p as nat);
    if t == 0 {
        if w >= 0 {
            lemma_small_mod(w as nat, p as nat);
        } else {
            lemma_small_mod((w + p) as nat, p as nat);
            lemma_mod_add_multiples_vanish(w, p);
        }
        assert(false);
    }
    lemma_mod_bound(w, p);
    lemma_small_mod(t as nat, p as nat);
    lemma_inverse(t);
    lemma_mul_mod_noop_right(t, pow(t, (p - 2) as nat), p);
    assert((t * iv) % p == 1);
    lemma_unit_cancel(diff % p, iv, t, d);
    lemma_mod_twice(diff, p);
    lemma_mul_mod_noop_right(d, w, p);
    lemma_mul_is_commutative(d, w);
    lemma_mul_is_commutative(d, t);
}

/// A node product over a range holding node `k` vanishes at `x_k`.
proof fn lemma_node_prod_zero(xs: Seq<u32>, a: int, e: int, k: int)
    requires
        0 <= a <= k <= e < xs.len(),
    ensures
        node_prod(xs, a, e, xs[k] as int) == 0,
    decreases e - a + 1,
{
    let x = xs[k] as int;
    if e > k {
        lemma_node_prod_zero(xs, a, e - 1, k);
        lemma_mul_basics(x - xs[e]);
    } else {
        assert(x - xs[e] == 0);
        lemma_mul_basics(node_prod(xs, a, e - 1, x));
    }
}

/// The node product peeled from the bottom.
proof fn lemma_node_prod_bottom(xs: Seq<u32>, a: int, e: int, x: int)
    requires
        0 <= a <= e < xs.len(),
    ensures
        node_prod(xs, a, e, x) == (x - xs[a]) * node_prod(xs, a + 1, e, x),
    decreases e - a + 1,
{
    if e == a {
        assert(node_prod(xs, a, a - 1, x) == 1);
        assert(node_prod(xs, a + 1, a, x) == 1);
        lemma_mul_basics(x - xs[a]);
    } else {
        lemma_node_prod_bottom(xs, a, e - 1, x);
        lemma_mul_is_associative(x - xs[a], node_prod(xs, a + 1, e - 1, x), x - xs[e]);
    }
}

/// Dropping the first node: `N_{a..e}(x) - N_{a+1..e}(x) == f[x_a..x_e] (x - x_{a+1}) ... (x - x_e)`.
proof fn lemma_drop_first_node(xs: Seq<u32>, ys: Seq<u32>, a: int, e: int, x: int)
    requires
        0 <= a <= e < xs.len(),
        reduced(xs),
        distinct_nodes(xs),
    ensures
        eqm(newton_sum(xs, ys, a, e, x) - newton_sum(xs, ys, a + 1, e, x), dd_range(xs, ys, a, e) * node_prod(xs, a + 1, e, x)),
    decreases e - a,
{
    let p = modulus();
    if e == a {
        assert(newton_sum(xs, ys, a, a - 1, x) == 0);
        assert(newton_sum(xs, ys, a + 1, a, x) == 0);
        assert(node_prod(xs, a, a - 1, x) == 1);
        assert(node_prod(xs, a + 1, a, x) == 1);
        lemma_mul_basics(dd_range(xs, ys, a, a));
    } else {
        lemma_drop_first_node(xs, ys, a, e - 1, x);
        lemma_dd_recurrence(xs, ys, a, e);
        lemma_node_prod_bottom(xs, a, e - 1, x);
        let da = dd_range(xs, ys, a, e - 1);
        let db = dd_range(xs, ys, a + 1, e);
        let dc = dd_range(xs, ys, a, e);
        let u = x - xs[a];
        let v = x - xs[e];
        let w = (xs[e] as int) - (xs[a] as int);
        let q = node_prod(xs, a + 1, e - 1, x);
        let prev = newton_sum(xs, ys, a, e - 1, x) - newton_sum(xs, ys, a + 1, e - 1, x);
        // diff == prev + dc (u q) - db q, and prev == da q (mod p)
        assert(newton_sum(xs, ys, a, e, x) - newton_sum(xs, ys, a + 1, e, x) == prev + dc * (u * q) - db * q);
        lemma_eqm_add(prev, da * q, dc * (u * q) - db * q, dc * (u * q) - db * q);
        // (da - db) == -(w dc) (mod p), times q
        lemma_eqm_mul_left(q, w * dc, db - da);
        assert(eqm(q * (da - db), q * (-(w * dc)))) by {
            lemma_mul_mod_noop_right(q, w * dc, p);
            lemma_mul_mod_noop_right(q, db - da, p);
            assert(q * (da - db) == -(q * (db - da))) by (nonlinear_arith);
            assert(q * (-(w * dc)) == -(q * (w * dc))) by (nonlinear_arith);
            lemma_sub_mod_noop(0, q * (db - da), p);
            lemma_sub_mod_noop(0, q * (w * dc), p);
        }
        assert(da * q + (dc * (u * q) - db * q) == q * (da - db) + dc * (u * q)) by (nonlinear_arith);
        lemma_eqm_add(q * (da - db), q * (-(w * dc)), dc * (u * q), dc * (u * q));
        assert(q * (-(w * dc)) + dc * (u * q) == dc * (q * v)) by (nonlinear_arith)
            requires
                u == x - xs[a],
                v == x - xs[e],
                w == xs[e] - xs[a];
        assert(node_prod(xs, a + 1, e, x) == q * v);
    }
}

/// The Newton interpolant on nodes `a ..= b` takes the value `y_k` at `x_k`.
proof fn lemma_newton_sum_interpolates(xs: Seq<u32>, ys: Seq<u32>, a: int, b: int, k: int)
    requires
        0 <= a <= k <= b < xs.len(),
        xs.len() == ys.len(),
        reduced(xs),
        distinct_nodes(xs),
    ensures
        eqm(newton_sum(xs, ys, a, b, xs[k] as int), ys[k] as int),
    decreases b - a,
{
    let p = modulus();
    let x = xs[k] as int;
    if k < b {
        lemma_newton_sum_interpolates(xs, ys, a, b - 1, k);
        lemma_node_prod_zero(xs, a, b - 1, k);
        lemma_mul_basics(dd_range(xs, ys, a, b));
    } else if a == b {
        assert(newton_sum(xs, ys, a, a - 1, x) == 0);
        assert(node_prod(xs, a, a - 1, x) == 1);
        lemma_mod_twice(ys[a] as int, p);
    } else {
        lemma_newton_sum_interpolates(xs, ys, a + 1, b, k);
        lemma_drop_first_node(xs, ys, a, b, x);
        lemma_node_prod_zero(xs, a + 1, b, k);
        lemma_mul_basics(dd_range(xs, ys, a, b));
        lemma_small_mod(0, p as nat);
        lemma_eqm_add(newton_sum(xs, ys, a, b, x) - newton_sum(xs, ys, a + 1, b, x), 0, newton_sum(xs, ys, a + 1, b, x),
            ys[k] as int);
    }
}

/// The Horner form from index `i` completes the sum below it.
proof fn lemma_horner(xs: Seq<u32>, ys: Seq<u32>, i: int, x: int)
    requires
        0 <= i < xs.len(),
        xs.len() == ys.len(),
        reduced(xs),
    ensures
        eqm(
            newton_sum(xs, ys, 0, xs.len() - 1, x),
            newton_sum(xs, ys, 0, i - 1, x) + node_prod(xs, 0, i - 1, x) * peval(
                newton_form(xs, newton_coefs(xs, ys), i, xs.len() as int),
                x,
            ),
        ),
    decreases xs.len() - i,
{
    let p = modulus();
    let n = xs.len() as int;
    let c = newton_coefs(xs, ys);
    let q = node_prod(xs, 0, i - 1, x);
    lemma_newton_coef(xs, ys, i);
    let ci = dd_range(xs, ys, 0, i);
    if i == n - 1 {
        let f = newton_form(xs, c, i, n);
        assert(f == seq![c(n - 1) as u32]);
        assert(f.drop_first().len() == 0);
        assert(peval(f.drop_first(), x) == 0);
        lemma_mul_basics(x);
        assert(peval(f, x) == ci);
        lemma_mul_is_commutative(ci, q);
    } else {
        lemma_horner(xs, ys, i + 1, x);
        let lin = seq![((0 - xs[i]) % p) as u32, 1u32];
        let next = newton_form(xs, c, i + 1, n);
        let h1 = peval(next, x);
        let f = newton_form(xs, c, i, n);
        assert(f == crate::poly_spec::add_spec(crate::poly_spec::mul_spec(next, lin), seq![c(i) as u32]));
        lemma_peval_add(crate::poly_spec::mul_spec(next, lin), seq![c(i) as u32], x);
        lemma_peval_mul(next, lin, x);
        assert(peval(seq![c(i) as u32], x) == ci) by {
            assert(seq![c(i) as u32].drop_first().len() == 0);
            assert(peval(seq![c(i) as u32].drop_first(), x) == 0);
            lemma_mul_basics(x);
        }
        lemma_small_mod(xs[i] as nat, p as nat);
        lemma_mod_bound(0 - xs[i], p);
        assert(peval(lin, x) == ((0 - xs[i]) % p) + x) by {
            assert(lin.drop_first() =~= seq![1u32]);
            assert(seq![1u32].drop_first().len() == 0);
            assert(peval(seq![1u32].drop_first(), x) == 0);
            lemma_mul_basics(x);
            assert(peval(seq![1u32], x) == 1);
            assert(lin[0] as int == (0 - xs[i]) % p);
        }
        lemma_add_mod_noop(0 - xs[i], x, p);
        lemma_mod_twice(0 - xs[i], p);
        lemma_add_mod_noop((0 - xs[i]) % p, x, p);
        assert(eqm(peval(lin, x), x - xs[i]));
        lemma_eqm_mul_left(h1, peval(lin, x), x - xs[i]);
        // peval(f) == h1 (x - x_i) + c_i (mod p)
        lemma_eqm_add(peval(crate::poly_spec::mul_spec(next, lin), x), h1 * (x - xs[i]), ci, ci);
        assert(eqm(peval(f, x), h1 * (x - xs[i]) + ci));
        lemma_eqm_mul_left(q, peval(f, x), h1 * (x - xs[i]) + ci);
        // the sum up to i plus the product up to i times the next tail
        assert(newton_sum(xs, ys, 0, i, x) == newton_sum(xs, ys, 0, i - 1, x) + ci * q);
        assert(node_prod(xs, 0, i, x) == q * (x - xs[i]));
        assert(ci * q + (q * (x - xs[i])) * h1 == q * (h1 * (x - xs[i]) + ci)) by (nonlinear_arith);
        lemma_eqm_add(newton_sum(xs, ys, 0, i - 1, x), newton_sum(xs, ys, 0, i - 1, x), q * peval(f, x), q * (h1 * (x
            - xs[i]) + ci));
    }
}

/// A polynomial with at most `n` coefficients that vanishes at `n` distinct
/// nodes is zero: every coefficient is `0 mod p`.
pub proof fn lemma_vanishing_is_zero(g: Seq<u32>, xs: Seq<u32>)
    requires
        reduced(g),
        reduced(xs),
        distinct_nodes(xs),
        g.len() <= xs.len(),
        forall|k: int| 0 <= k < xs.len() ==> #[trigger] peval(g, xs[k] as int) % modulus() == 0,
    ensures
        forall|i: int| #[trigger] coef(g, i) == 0,
    decreases g.len(),
{
    let p = modulus();
    if g.len() > 0 {
        let n = xs.len() as int;
        let y = xs[n - 1] as int;
        let q = crate::poly_divides::synth_quot(g, y);
        let l = crate::poly_divides::linear_factor(y);
        let rest = xs.drop_last();
        assert forall|k: int| 0 <= k < rest.len() implies #[trigger] peval(q, rest[k] as int) % modulus() == 0 by {
            let z = rest[k] as int;
            assert(rest[k] == xs[k]);
            assert(xs[k] != xs[n - 1]);
            assert((z - y) % p != 0) by {
                if z > y {
                    lemma_small_mod((z - y) as nat, p as nat);
                } else {
                    lemma_mod_multiples_vanish(1, z - y, p);
                    lemma_small_mod((p + z - y) as nat, p as nat);
                }
            }
            crate::poly_divides::lemma_quotient_root(g, y, z);
        }
        assert forall|i: int| 0 <= i < q.len() implies #[trigger] q[i] < crate::P by {
            lemma_mod_bound(crate::poly_divides::tail_eval(g, y, i + 1), p);
        }
        lemma_vanishing_is_zero(q, rest);
        crate::poly_divides::lemma_factor_theorem(g, y);
        assert forall|i: int| #[trigger] coef(g, i) == 0 by {
            crate::poly_algebra::lemma_conv_comm(q, l, i);
            crate::poly_spec::lemma_conv_short(l, q, i);
            assert(coef(q, i) == 0 && coef(q, i - 1) == 0);
            assert(eqm(coef(Seq::<u32>::empty(), i) + crate::poly_spec::conv(q, l, i), coef(g, i)));
            lemma_small_mod(0, p as nat);
            if 0 <= i < g.len() {
                lemma_small_mod(g[i] as nat, p as nat);
            }
        }
    }
}

/// Newton interpolation interpolates: with distinct nodes, the Newton form
/// of `(xs, ys)` takes the value `ys[k]` at `xs[k]` for every `k`.
pub proof fn law_newton_interpolates(xs: Seq<u32>, ys: Seq<u32>)
    requires
        1 <= xs.len(),
        xs.len() == ys.len(),
        reduced(xs),
        reduced(ys),
        distinct_nodes(xs),
    ensures
        forall|k: int|
            0 <= k < xs.len() ==> #[trigger] peval(newton_form(xs, newton_coefs(xs, ys), 0, xs.len() as int), xs[k] as int)
                % modulus() == ys[k],
{
    let n = xs.len() as int;
    assert forall|k: int| 0 <= k < n implies #[trigger] peval(newton_form(xs, newton_coefs(xs, ys), 0, n), xs[k] as int)
        % modulus() == ys[k] by {
        let x = xs[k] as int;
        lemma_horner(xs, ys, 0, x);
        assert(newton_sum(xs, ys, 0, -1, x) == 0);
        assert(node_prod(xs, 0, -1, x) == 1);
        lemma_newton_sum_interpolates(xs, ys, 0, n - 1, k);
        lemma_small_mod(ys[k] as nat, modulus() as nat);
    }
}

} // verus!
