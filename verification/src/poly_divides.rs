//! Divisibility in F_p[X]: what the Euclidean algorithm preserves.
use vstd::arithmetic::div_mod::*;
use vstd::arithmetic::mul::*;
use vstd::arithmetic::power::*;
use vstd::prelude::*;

use crate::field::{lemma_inverse, modulus};
use crate::poly_algebra::{
    conv_term, lemma_conv_as_sum, lemma_conv_assoc, lemma_conv_comm, lemma_conv_prefix,
    lemma_sum_ext, lemma_sum_mod, lemma_sum_scale, win,
};
use crate::poly_eval::{lemma_peval_congruent, lemma_peval_mul};
use crate::poly_ring::{congruent, congruent_by, eqm, lemma_conv_add_left, lemma_congruent_rem};
use crate::poly_spec::{
    add_spec, canon, coef, conv, conv_upto, inv_spec, is_divmod, lemma_add_spec_coef,
    lemma_conv_ext, lemma_mul_spec_coef, lemma_ops_canon, lemma_scalar_spec_coef, lemma_trim,
    monic, mul_spec, peval, reduced, rem_spec, scalar_spec, sub_spec, trim_spec,
};
use crate::P;

verus! {

/// `g` divides `f` in F_p[X]: `f = h g` for some `h`.
pub open spec fn divides(g: Seq<u32>, f: Seq<u32>) -> bool {
    congruent(Seq::<u32>::empty(), f, g)
}

pub(crate) proof fn lemma_eqm_add(a: int, b: int, c: int, d: int)
    requires
        eqm(a, b),
        eqm(c, d),
    ensures
        eqm(a + c, b + d),
{
    lemma_add_mod_noop(a, c, modulus());
    lemma_add_mod_noop(b, d, modulus());
}

pub(crate) proof fn lemma_eqm_sub(a: int, b: int, c: int, d: int)
    requires
        eqm(a, b),
        eqm(c, d),
    ensures
        eqm(a - c, b - d),
{
    lemma_sub_mod_noop(a, c, modulus());
    lemma_sub_mod_noop(b, d, modulus());
}

pub(crate) proof fn lemma_eqm_mul_left(c: int, a: int, b: int)
    requires
        eqm(a, b),
    ensures
        eqm(c * a, c * b),
{
    lemma_mul_mod_noop_right(c, a, modulus());
    lemma_mul_mod_noop_right(c, b, modulus());
}

/// Multiplication distributes over subtraction on the left.
proof fn lemma_conv_sub_left(a: Seq<u32>, b: Seq<u32>, c: Seq<u32>, k: int)
    ensures
        eqm(conv(sub_spec(a, b), c, k), conv(a, c, k) - conv(b, c, k)),
{
    let p = modulus();
    let s = sub_spec(a, b);
    let w = win(s, c, k) + win(a, c, k) + win(b, c, k);
    lemma_conv_as_sum(s, c, k, w);
    lemma_conv_as_sum(a, c, k, w);
    lemma_conv_as_sum(b, c, k, w);
    let fs = conv_term(s, c, k);
    let fa = conv_term(a, c, k);
    let fb = conv_term(b, c, k);
    let nb = |i: int| -fb(i);
    let g = |i: int| fa(i) + nb(i);
    assert forall|i: int| -w <= i < w implies #[trigger] (fs(i) % p) == g(i) % p by {
        lemma_add_spec_coef(a, b, i);
        lemma_mul_mod_noop_left(coef(a, i) - coef(b, i), coef(c, k - i), p);
        assert((coef(a, i) - coef(b, i)) * coef(c, k - i) == coef(a, i) * coef(c, k - i) + -(coef(b, i) * coef(c, k - i)))
            by (nonlinear_arith);
    }
    lemma_sum_mod(fs, g, -w, w);
    crate::poly_algebra::lemma_sum_add(fa, nb, -w, w);
    lemma_sum_ext(g, |i: int| fa(i) + nb(i), -w, w);
    lemma_sum_scale(fb, -1, -w, w);
    lemma_sum_ext(nb, |i: int| -1 * fb(i), -w, w);
}

/// Scaling a factor scales the product.
pub(crate) proof fn lemma_conv_scalar_left(h: Seq<u32>, c: int, m: Seq<u32>, k: int)
    ensures
        eqm(conv(scalar_spec(h, c), m, k), c * conv(h, m, k)),
{
    let p = modulus();
    let s = scalar_spec(h, c);
    let w = win(s, m, k) + win(h, m, k);
    lemma_conv_as_sum(s, m, k, w);
    lemma_conv_as_sum(h, m, k, w);
    let fs = conv_term(s, m, k);
    let fh = conv_term(h, m, k);
    let g = |i: int| c * fh(i);
    assert forall|i: int| -w <= i < w implies #[trigger] (fs(i) % p) == g(i) % p by {
        lemma_scalar_spec_coef(h, c, i);
        lemma_mul_mod_noop_left(coef(h, i) * c, coef(m, k - i), p);
        assert((coef(h, i) * c) * coef(m, k - i) == c * (coef(h, i) * coef(m, k - i))) by (nonlinear_arith);
    }
    lemma_sum_mod(fs, g, -w, w);
    lemma_sum_scale(fh, c, -w, w);
    lemma_sum_ext(g, |i: int| c * fh(i), -w, w);
}

/// Every polynomial divides zero.
pub proof fn lemma_divides_zero(g: Seq<u32>)
    ensures
        divides(g, Seq::<u32>::empty()),
{
    let e = Seq::<u32>::empty();
    assert forall|k: int| #[trigger] eqm(coef(e, k) + conv(e, g, k), coef(e, k)) by {
        assert(conv(e, g, k) == 0);
    }
    assert(congruent_by(e, e, g, e));
}

/// A reduced polynomial divides itself.
pub proof fn lemma_divides_self(g: Seq<u32>)
    requires
        reduced(g),
    ensures
        divides(g, g),
{
    let e = Seq::<u32>::empty();
    let one = seq![1u32];
    assert forall|k: int| #[trigger] eqm(coef(e, k) + conv(one, g, k), coef(g, k)) by {
        assert(conv(one, g, k) == conv_upto(one, g, k, 1));
        assert(conv_upto(one, g, k, 0) == 0);
        assert(coef(one, 0) == 1);
        lemma_mul_basics(coef(g, k));
        assert(coef(one, 0) * coef(g, k) == coef(g, k));
    }
    assert(congruent_by(e, g, g, one));
}

/// Divisibility only depends on the coefficients, mod p, of both sides.
pub proof fn lemma_divides_coefs(g1: Seq<u32>, g2: Seq<u32>, f1: Seq<u32>, f2: Seq<u32>)
    requires
        divides(g1, f1),
        forall|i: int| #[trigger] coef(g1, i) == coef(g2, i),
        forall|i: int| #[trigger] eqm(coef(f1, i), coef(f2, i)),
    ensures
        divides(g2, f2),
{
    let e = Seq::<u32>::empty();
    let h = choose|h: Seq<u32>| #[trigger] congruent_by(e, f1, g1, h);
    assert forall|k: int| #[trigger] eqm(coef(e, k) + conv(h, g2, k), coef(f2, k)) by {
        lemma_conv_ext(h, h, g1, g2, k);
        assert(eqm(coef(e, k) + conv(h, g1, k), coef(f1, k)));
        assert(eqm(coef(f1, k), coef(f2, k)));
    }
    assert(congruent_by(e, f2, g2, h));
}

/// If `a = q b + r` and `g` divides `b` and `r`, then `g` divides `a`.
pub proof fn lemma_divides_dividend(a: Seq<u32>, b: Seq<u32>, q: Seq<u32>, r: Seq<u32>, g: Seq<u32>)
    requires
        is_divmod(a, b, q, r),
        divides(g, b),
        divides(g, r),
    ensures
        divides(g, a),
{
    let p = modulus();
    let e = Seq::<u32>::empty();
    let h1 = choose|h: Seq<u32>| #[trigger] congruent_by(e, b, g, h);
    let h2 = choose|h: Seq<u32>| #[trigger] congruent_by(e, r, g, h);
    let qh = mul_spec(q, h1);
    let w = add_spec(qh, h2);
    assert forall|k: int| #[trigger] eqm(coef(e, k) + conv(w, g, k), coef(a, k)) by {
        lemma_conv_add_left(qh, h2, g, k);
        lemma_conv_assoc(q, h1, g, k);
        // q (h1 g) == q b
        assert forall|i: int| 0 <= i <= k implies #[trigger] (coef(mul_spec(h1, g), i) % p) == coef(b, i) % p by {
            lemma_mul_spec_coef(h1, g, i);
            lemma_mod_twice(conv(h1, g, i), p);
            assert(eqm(coef(e, i) + conv(h1, g, i), coef(b, i)));
        }
        assert forall|i: int| 0 <= i <= k implies #[trigger] (coef(q, i) % p) == coef(q, i) % p by {
        }
        lemma_conv_prefix(q, q, mul_spec(h1, g), b, k);
        assert(eqm(coef(e, k) + conv(h2, g, k), coef(r, k)));
        lemma_eqm_add(conv(qh, g, k), conv(q, b, k), conv(h2, g, k), coef(r, k));
        assert(((conv(q, b, k) + coef(r, k)) % p) == coef(a, k) % p);
    }
    assert(congruent_by(e, a, g, w));
}

/// If `a = q b + r` and `g` divides `a` and `b`, then `g` divides `r`.
pub proof fn lemma_divides_remainder(a: Seq<u32>, b: Seq<u32>, q: Seq<u32>, r: Seq<u32>, g: Seq<u32>)
    requires
        is_divmod(a, b, q, r),
        divides(g, a),
        divides(g, b),
    ensures
        divides(g, r),
{
    let p = modulus();
    let e = Seq::<u32>::empty();
    let ha = choose|h: Seq<u32>| #[trigger] congruent_by(e, a, g, h);
    let hb = choose|h: Seq<u32>| #[trigger] congruent_by(e, b, g, h);
    let qh = mul_spec(q, hb);
    let w = sub_spec(ha, qh);
    assert forall|k: int| #[trigger] eqm(coef(e, k) + conv(w, g, k), coef(r, k)) by {
        lemma_conv_sub_left(ha, qh, g, k);
        lemma_conv_assoc(q, hb, g, k);
        assert forall|i: int| 0 <= i <= k implies #[trigger] (coef(mul_spec(hb, g), i) % p) == coef(b, i) % p by {
            lemma_mul_spec_coef(hb, g, i);
            lemma_mod_twice(conv(hb, g, i), p);
            assert(eqm(coef(e, i) + conv(hb, g, i), coef(b, i)));
        }
        assert forall|i: int| 0 <= i <= k implies #[trigger] (coef(q, i) % p) == coef(q, i) % p by {
        }
        lemma_conv_prefix(q, q, mul_spec(hb, g), b, k);
        assert(eqm(coef(e, k) + conv(ha, g, k), coef(a, k)));
        lemma_eqm_sub(conv(ha, g, k), coef(a, k), conv(qh, g, k), conv(q, b, k));
        assert(((conv(q, b, k) + coef(r, k)) % p) == coef(a, k) % p);
        lemma_eqm_sub(coef(a, k), conv(q, b, k) + coef(r, k), conv(q, b, k), conv(q, b, k));
    }
    assert(congruent_by(e, r, g, w));
}

/// Coefficient `j` of `g` is `lc(g)` times that of `monic(g)`, mod p.
proof fn lemma_monic_scale(g: Seq<u32>, j: int)
    requires
        canon(g),
        g.len() > 0,
    ensures
        eqm(coef(g, j), (g.last() as int) * coef(monic(g), j)),
{
    let p = modulus();
    let lc = g.last() as int;
    let pw = pow(lc, (p - 2) as nat);
    let iv = inv_spec(lc);
    lemma_small_mod(lc as nat, p as nat);
    lemma_inverse(lc);
    if 0 <= j < g.len() {
        let gj = coef(g, j);
        assert(coef(monic(g), j) == (gj * iv) % p);
        lemma_mul_mod_noop_right(lc, gj * iv, p);
        assert(lc * (gj * iv) == gj * (lc * iv)) by (nonlinear_arith);
        lemma_mul_mod_noop_right(gj, lc * iv, p);
        lemma_mul_mod_noop_right(lc, pw, p);
        assert((lc * iv) % p == 1);
        lemma_mul_basics(gj);
    } else {
        lemma_mul_basics(lc);
    }
}

/// Normalising a divisor keeps it a divisor.
pub proof fn lemma_divides_monic(g: Seq<u32>, f: Seq<u32>)
    requires
        canon(g),
        g.len() > 0,
        divides(g, f),
    ensures
        divides(monic(g), f),
{
    let p = modulus();
    let e = Seq::<u32>::empty();
    let m = monic(g);
    let lc = g.last() as int;
    let iv = inv_spec(lc);
    lemma_small_mod(lc as nat, p as nat);
    lemma_inverse(lc);
    let h = choose|h: Seq<u32>| #[trigger] congruent_by(e, f, g, h);
    let w = scalar_spec(h, lc);
    // g_j == lc * m_j (mod p)
    assert forall|j: int| #[trigger] eqm(coef(g, j), lc * coef(m, j)) by {
        lemma_monic_scale(g, j);
    }
    assert forall|k: int| #[trigger] eqm(coef(e, k) + conv(w, m, k), coef(f, k)) by {
        lemma_conv_scalar_left(h, lc, m, k);
        // conv(h, g, k) == lc * conv(h, m, k)  (mod p)
        lemma_conv_comm(h, g, k);
        lemma_conv_comm(h, m, k);
        let sm = scalar_spec(m, lc);
        assert forall|i: int| 0 <= i <= k implies #[trigger] (coef(g, i) % p) == coef(sm, i) % p by {
            lemma_scalar_spec_coef(m, lc, i);
            lemma_mod_twice(coef(m, i) * lc, p);
            lemma_mul_is_commutative(coef(m, i), lc);
            assert(eqm(coef(g, i), lc * coef(m, i)));
        }
        assert forall|i: int| 0 <= i <= k implies #[trigger] (coef(h, i) % p) == coef(h, i) % p by {
        }
        lemma_conv_prefix(g, sm, h, h, k);
        lemma_conv_scalar_left(m, lc, h, k);
        assert(eqm(coef(e, k) + conv(h, g, k), coef(f, k)));
    }
    assert(congruent_by(e, f, m, w));
}

/// A divisor of `g` divides its normalisation.
pub proof fn lemma_divides_into_monic(d: Seq<u32>, g: Seq<u32>)
    requires
        canon(g),
        g.len() > 0,
        divides(d, g),
    ensures
        divides(d, monic(g)),
{
    let p = modulus();
    let e = Seq::<u32>::empty();
    let m = monic(g);
    let lc = g.last() as int;
    let iv = inv_spec(lc);
    let h = choose|h: Seq<u32>| #[trigger] congruent_by(e, g, d, h);
    let w = scalar_spec(h, iv);
    assert forall|k: int| #[trigger] eqm(coef(e, k) + conv(w, d, k), coef(m, k)) by {
        lemma_conv_scalar_left(h, iv, d, k);
        assert(eqm(coef(e, k) + conv(h, d, k), coef(g, k)));
        lemma_eqm_mul_left(iv, conv(h, d, k), coef(g, k));
        if 0 <= k < g.len() {
            assert(coef(m, k) == (coef(g, k) * iv) % p);
            lemma_mod_twice(coef(g, k) * iv, p);
            assert(coef(g, k) * iv == iv * coef(g, k));
        } else {
            lemma_mul_basics(iv);
            lemma_small_mod(0, p as nat);
        }
    }
    assert(congruent_by(e, m, d, w));
}

/// A nonzero divisor leaves remainder zero.
pub proof fn lemma_divides_rem(g: Seq<u32>, f: Seq<u32>)
    requires
        canon(g),
        g.len() > 0,
        divides(g, f),
    ensures
        rem_spec(f, g) == Seq::<u32>::empty(),
{
    crate::poly_spec::lemma_trim_canon(g);
    lemma_congruent_rem(f, g, Seq::<u32>::empty());
}

/// A root of a divisor is a root of the multiple.
pub proof fn lemma_root_of_multiple(g: Seq<u32>, f: Seq<u32>, x: int)
    requires
        divides(g, f),
        peval(g, x) % modulus() == 0,
    ensures
        peval(f, x) % modulus() == 0,
{
    let p = modulus();
    let e = Seq::<u32>::empty();
    let h = choose|h: Seq<u32>| #[trigger] congruent_by(e, f, g, h);
    let hg = mul_spec(h, g);
    assert forall|i: int| #[trigger] eqm(coef(f, i), coef(hg, i)) by {
        lemma_mul_spec_coef(h, g, i);
        lemma_mod_twice(conv(h, g, i), p);
        assert(eqm(coef(e, i) + conv(h, g, i), coef(f, i)));
    }
    lemma_peval_congruent(f, hg, x);
    lemma_peval_mul(h, g, x);
    lemma_mul_mod_noop_right(peval(h, x), peval(g, x), p);
    lemma_mul_basics(peval(h, x));
}

/// A canonical polynomial is a multiple of its normalisation.
pub proof fn lemma_monic_divides(g: Seq<u32>)
    requires
        canon(g),
        g.len() > 0,
    ensures
        divides(monic(g), g),
{
    let e = Seq::<u32>::empty();
    let m = monic(g);
    let lc = g.last() as int;
    let w = seq![g.last()];
    assert forall|k: int| #[trigger] eqm(coef(e, k) + conv(w, m, k), coef(g, k)) by {
        lemma_monic_scale(g, k);
        assert(conv(w, m, k) == conv_upto(w, m, k, 1));
        assert(conv_upto(w, m, k, 0) == 0);
        assert(coef(w, 0) == lc);
    }
    assert(congruent_by(e, g, m, w));
}

/// A quotient with zero remainder divides the dividend.
pub proof fn lemma_exact_quotient_divides(a: Seq<u32>, b: Seq<u32>, q: Seq<u32>)
    requires
        is_divmod(a, b, q, Seq::<u32>::empty()),
    ensures
        divides(q, a),
        divides(b, a),
{
    let e = Seq::<u32>::empty();
    assert forall|k: int| #[trigger] eqm(coef(e, k) + conv(b, q, k), coef(a, k)) by {
        lemma_conv_comm(b, q, k);
        assert(((conv(q, b, k) + coef(e, k)) % modulus()) == coef(a, k) % modulus());
    }
    assert(congruent_by(e, a, q, b));
    assert forall|k: int| #[trigger] eqm(coef(e, k) + conv(q, b, k), coef(a, k)) by {
        assert(((conv(q, b, k) + coef(e, k)) % modulus()) == coef(a, k) % modulus());
    }
    assert(congruent_by(e, a, b, q));
}

/// The linear polynomial `X - y`.
pub open spec fn linear_factor(y: int) -> Seq<u32> {
    seq![((modulus() - y % modulus()) % modulus()) as u32, 1u32]
}

/// The value at `y` of the tail `a_k + a_{k+1} X + ...`.
pub open spec fn tail_eval(a: Seq<u32>, y: int, k: int) -> int {
    peval(a.subrange(k, a.len() as int), y)
}

/// The quotient of `a` by `X - y` by synthetic division.
pub open spec fn synth_quot(a: Seq<u32>, y: int) -> Seq<u32> {
    Seq::new(if a.len() > 0 { (a.len() - 1) as nat } else { 0 }, |k: int| (tail_eval(a, y, k + 1) % modulus()) as u32)
}

proof fn lemma_tail_step(a: Seq<u32>, y: int, k: int)
    requires
        0 <= k < a.len(),
    ensures
        tail_eval(a, y, k) == a[k] + y * tail_eval(a, y, k + 1),
{
    assert(a.subrange(k, a.len() as int).drop_first() =~= a.subrange(k + 1, a.len() as int));
}

/// `X - y` vanishes at `y`.
pub proof fn lemma_linear_factor_root(y: int)
    ensures
        peval(linear_factor(y), y) % modulus() == 0,
{
    let p = modulus();
    let l = linear_factor(y);
    reveal_with_fuel(peval, 3);
    assert(l.drop_first().drop_first().len() == 0);
    assert(peval(l, y) == l[0] + y * (1 + y * 0));
    lemma_mod_bound(y, p);
    assert(l[0] as int == (p - y % p) % p);
    lemma_add_mod_noop(p - y % p, y, p);
    lemma_mod_self_0(p);
    assert((p - y % p) + y == p + (y - y % p));
    lemma_fundamental_div_mod(y, p);
    lemma_mod_multiples_vanish(1 + y / p, 0, p);
    assert(p + (y - y % p) == p * (1 + y / p));
    lemma_mul_is_commutative(p, 1 + y / p);
    lemma_mod_multiples_basic(1 + y / p, p);
    lemma_mul_basics(y);
    lemma_mod_twice(p - y % p, p);
    lemma_add_mod_noop(l[0] as int, y, p);
}

/// Factor theorem: a root `y` of `a` makes `X - y` divide `a`.
pub proof fn lemma_factor_theorem(a: Seq<u32>, y: int)
    requires
        peval(a, y) % modulus() == 0,
    ensures
        divides(linear_factor(y), a),
        congruent_by(Seq::<u32>::empty(), a, linear_factor(y), synth_quot(a, y)),
{
    let p = modulus();
    let n = a.len() as int;
    let q = synth_quot(a, y);
    let l = linear_factor(y);
    let e = Seq::<u32>::empty();
    assert(a.subrange(0, n) =~= a);
    assert(tail_eval(a, y, n) == 0) by {
        assert(a.subrange(n, n).len() == 0);
    }
    // l[0] stands for -y
    assert(eqm(l[0] as int, -y)) by {
        lemma_mod_bound(y, p);
        lemma_fundamental_div_mod(y, p);
        lemma_mod_twice(p - y % p, p);
        assert(p - y % p == -y + p * (1 + y / p)) by (nonlinear_arith)
            requires
                y == p * (y / p) + y % p;
        lemma_mod_multiples_vanish(1 + y / p, -y, p);
        lemma_mul_is_commutative(p, 1 + y / p);
    }
    // every coefficient of q is the tail value after it
    assert forall|j: int| 0 <= j < n implies #[trigger] eqm(coef(q, j), tail_eval(a, y, j + 1)) by {
        if j < n - 1 {
            lemma_mod_twice(tail_eval(a, y, j + 1), p);
        } else {
            assert(coef(q, j) == 0);
        }
    }
    assert forall|k: int| #[trigger] eqm(coef(e, k) + conv(q, l, k), coef(a, k)) by {
        lemma_conv_comm(q, l, k);
        crate::poly_spec::lemma_conv_short(l, q, k);
        let c0 = coef(q, k);
        let c1 = coef(q, k - 1);
        assert(conv(q, l, k) == (l[0] as int) * c0 + 1 * c1);
        if k < 0 {
            assert(c0 == 0 && c1 == 0);
        } else if k >= n {
            assert(c0 == 0);
            assert(c1 == 0);
        } else {
            lemma_tail_step(a, y, k);
            // l0 * c0 == -y * T(k+1)
            let t1 = tail_eval(a, y, k + 1);
            assert(eqm(c0, t1));
            lemma_eqm_mul_left(l[0] as int, c0, t1);
            lemma_mul_mod_noop_left(l[0] as int, t1, p);
            lemma_mul_mod_noop_left(-y, t1, p);
            assert(eqm((l[0] as int) * c0, -y * t1));
            if k == 0 {
                assert(c1 == 0);
                assert(tail_eval(a, y, 0) == peval(a, y));
                assert(eqm(tail_eval(a, y, 0), 0));
                assert(coef(a, 0) == a[0]);
                assert(-y * t1 == a[0] - tail_eval(a, y, 0)) by (nonlinear_arith)
                    requires
                        tail_eval(a, y, 0) == a[0] + y * t1;
                lemma_eqm_sub(a[0] as int, a[0] as int, tail_eval(a, y, 0), 0);
            } else {
                assert(eqm(c1, tail_eval(a, y, k)));
                assert(-y * t1 + tail_eval(a, y, k) == a[k] as int) by (nonlinear_arith)
                    requires
                        tail_eval(a, y, k) == a[k] + y * t1;
                lemma_eqm_add((l[0] as int) * c0, -y * t1, c1, tail_eval(a, y, k));
            }
        }
    }
    assert(congruent_by(e, a, l, q));
}

/// `X - y` takes the value `z - y` at `z`.
pub proof fn lemma_linear_factor_value(y: int, z: int)
    ensures
        eqm(peval(linear_factor(y), z), z - y),
{
    let p = modulus();
    let l = linear_factor(y);
    reveal_with_fuel(peval, 3);
    assert(l.drop_first().drop_first().len() == 0);
    assert(peval(l, z) == l[0] + z * (1 + z * 0));
    assert(eqm(l[0] as int, -y)) by {
        lemma_mod_bound(y, p);
        lemma_fundamental_div_mod(y, p);
        lemma_mod_twice(p - y % p, p);
        assert(p - y % p == -y + p * (1 + y / p)) by (nonlinear_arith)
            requires
                y == p * (y / p) + y % p;
        lemma_mod_multiples_vanish(1 + y / p, -y, p);
        lemma_mul_is_commutative(p, 1 + y / p);
    }
    lemma_mul_basics(z);
    lemma_eqm_add(l[0] as int, -y, z, z);
}

/// A second root `z` of `a`, apart from `y`, is a root of the quotient of
/// `a` by `X - y`.
pub proof fn lemma_quotient_root(a: Seq<u32>, y: int, z: int)
    requires
        peval(a, y) % modulus() == 0,
        peval(a, z) % modulus() == 0,
        (z - y) % modulus() != 0,
    ensures
        peval(synth_quot(a, y), z) % modulus() == 0,
{
    let p = modulus();
    let e = Seq::<u32>::empty();
    let q = synth_quot(a, y);
    let l = linear_factor(y);
    lemma_factor_theorem(a, y);
    let ql = mul_spec(q, l);
    assert forall|i: int| #[trigger] eqm(coef(a, i), coef(ql, i)) by {
        lemma_mul_spec_coef(q, l, i);
        lemma_mod_twice(conv(q, l, i), p);
        assert(eqm(coef(e, i) + conv(q, l, i), coef(a, i)));
    }
    lemma_peval_congruent(a, ql, z);
    lemma_peval_mul(q, l, z);
    lemma_linear_factor_value(y, z);
    let vq = peval(q, z);
    lemma_mul_mod_noop_right(vq, peval(l, z), p);
    lemma_mul_mod_noop_right(vq, z - y, p);
    if vq % p != 0 {
        crate::field::lemma_field_no_zero_divisors(vq, z - y);
    }
}

/// A common root of `a` and `b` is a root of every polynomial that all
/// common divisors of `a` and `b` divide.
pub proof fn lemma_common_root(a: Seq<u32>, b: Seq<u32>, g: Seq<u32>, y: int)
    requires
        peval(a, y) % modulus() == 0,
        peval(b, y) % modulus() == 0,
        forall|d: Seq<u32>| #[trigger] divides(d, a) && divides(d, b) ==> divides(d, g),
    ensures
        peval(g, y) % modulus() == 0,
{
    lemma_factor_theorem(a, y);
    lemma_factor_theorem(b, y);
    let l = linear_factor(y);
    assert(divides(l, a) && divides(l, b));
    lemma_linear_factor_root(y);
    lemma_root_of_multiple(l, g, y);
}

/// Only the zero polynomial is a multiple of the zero polynomial.
pub proof fn lemma_divided_by_zero(f: Seq<u32>)
    requires
        reduced(f),
        divides(Seq::<u32>::empty(), f),
    ensures
        trim_spec(f).len() == 0,
{
    lemma_trim(f);
    let t = trim_spec(f);
    if t.len() > 0 {
        let e = Seq::<u32>::empty();
        let h = choose|h: Seq<u32>| #[trigger] crate::poly_ring::congruent_by(e, f, e, h);
        let top = t.len() - 1;
        assert(eqm(coef(e, top as int) + conv(h, e, top as int), coef(f, top as int)));
        lemma_conv_comm(h, e, top as int);
        assert(conv(e, h, top as int) == 0);
        assert(eqm(0, coef(f, top as int)));
        assert(t.last() != 0);
        assert(f[top as int] == t[top as int]);
        assert(coef(f, top as int) == f[top as int]);
        lemma_small_mod(f[top as int] as nat, P as nat);
        assert(false);
    }
}

} // verus!
