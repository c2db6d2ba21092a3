//! The greatest common divisor in F_p[X]: division always exists, the
//! Euclidean gcd is the monic common divisor that every common divisor
//! divides, and there is only one such polynomial. Also the linear
//! combinations `c0 x + c1 y` that carry Bezout cofactors.
use vstd::arithmetic::div_mod::*;
use vstd::arithmetic::mul::*;
use vstd::arithmetic::power::*;
use vstd::prelude::*;

use crate::field::{lemma_inverse, modulus};
use crate::poly_algebra::{lemma_conv_assoc, lemma_conv_prefix};
use crate::poly_divides::{
    divides, lemma_conv_scalar_left, lemma_divided_by_zero, lemma_divides_coefs, lemma_divides_dividend,
    lemma_divides_into_monic, lemma_divides_monic, lemma_divides_rem, lemma_divides_remainder,
    lemma_divides_self, lemma_divides_zero, lemma_eqm_add, lemma_eqm_sub,
};
use crate::poly_ring::{congruent_by, eqm, lemma_conv_add_left, lemma_conv_add_right, lemma_mul_one_left};
use crate::poly_spec::{
    add_spec, canon, coef, conv, conv_upto, euclid, gcd_spec, has_rem, inv_spec, is_divmod, lead, lemma_add_spec_coef,
    lemma_monic_canon, lemma_mul_spec_coef, lemma_ops_canon, lemma_trim, lemma_trim_canon, lemma_trimmed_eq,
    lemma_unit_cancel, monic, mul_spec, reduced, rem_spec, res_seq, res_spec, scalar_spec, signed, sub_spec, trim_spec,
};
use crate::P;

verus! {

/// `c0 x + c1 y`.
pub open spec fn lin(c0: Seq<u32>, c1: Seq<u32>, x: Seq<u32>, y: Seq<u32>) -> Seq<u32> {
    add_spec(mul_spec(c0, x), mul_spec(c1, y))
}

/// `c X^s`.
pub open spec fn monomial(c: u32, s: nat) -> Seq<u32> {
    Seq::new(s + 1, |i: int| if i == s { c } else { 0u32 })
}

proof fn lemma_conv_monomial(c: u32, s: nat, b: Seq<u32>, k: int, n: int)
    requires
        0 <= n <= s + 1,
    ensures
        conv_upto(monomial(c, s), b, k, n) == if n == s + 1 { c * coef(b, k - s) } else { 0 },
    decreases n,
{
    if n > 0 {
        lemma_conv_monomial(c, s, b, k, n - 1);
        let m = monomial(c, s);
        assert(coef(m, n - 1) == if n - 1 == s { c as int } else { 0 });
        if n - 1 != s {
            assert(coef(m, n - 1) * coef(b, k - (n - 1)) == 0);
        }
    }
}

/// Coefficient `k` of a matrix row applied to two linear combinations.
proof fn lemma_lin_compose_coef(
    m0: Seq<u32>,
    m1: Seq<u32>,
    c0: Seq<u32>,
    c1: Seq<u32>,
    c2: Seq<u32>,
    c3: Seq<u32>,
    x: Seq<u32>,
    y: Seq<u32>,
    k: int,
)
    ensures
        coef(add_spec(mul_spec(m0, lin(c0, c1, x, y)), mul_spec(m1, lin(c2, c3, x, y))), k) == coef(
            lin(add_spec(mul_spec(m0, c0), mul_spec(m1, c2)), add_spec(mul_spec(m0, c1), mul_spec(m1, c3)), x, y),
            k,
        ),
{
    let p = modulus();
    let l1 = lin(c0, c1, x, y);
    let l2 = lin(c2, c3, x, y);
    let n0 = add_spec(mul_spec(m0, c0), mul_spec(m1, c2));
    let n1 = add_spec(mul_spec(m0, c1), mul_spec(m1, c3));
    let ea = conv(mul_spec(m0, c0), x, k);
    let eb = conv(mul_spec(m0, c1), y, k);
    let ec = conv(mul_spec(m1, c2), x, k);
    let ed = conv(mul_spec(m1, c3), y, k);
    lemma_conv_add_right(m0, mul_spec(c0, x), mul_spec(c1, y), k);
    lemma_conv_add_right(m1, mul_spec(c2, x), mul_spec(c3, y), k);
    lemma_conv_assoc(m0, c0, x, k);
    lemma_conv_assoc(m0, c1, y, k);
    lemma_conv_assoc(m1, c2, x, k);
    lemma_conv_assoc(m1, c3, y, k);
    lemma_eqm_add(conv(m0, mul_spec(c0, x), k), ea, conv(m0, mul_spec(c1, y), k), eb);
    lemma_eqm_add(conv(m1, mul_spec(c2, x), k), ec, conv(m1, mul_spec(c3, y), k), ed);
    assert(eqm(conv(m0, l1, k), ea + eb));
    assert(eqm(conv(m1, l2, k), ec + ed));
    lemma_conv_add_left(mul_spec(m0, c0), mul_spec(m1, c2), x, k);
    lemma_conv_add_left(mul_spec(m0, c1), mul_spec(m1, c3), y, k);
    lemma_add_spec_coef(mul_spec(m0, l1), mul_spec(m1, l2), k);
    lemma_mul_spec_coef(m0, l1, k);
    lemma_mul_spec_coef(m1, l2, k);
    lemma_add_spec_coef(mul_spec(n0, x), mul_spec(n1, y), k);
    lemma_mul_spec_coef(n0, x, k);
    lemma_mul_spec_coef(n1, y, k);
    lemma_eqm_add(conv(m0, l1, k), ea + eb, conv(m1, l2, k), ec + ed);
    lemma_eqm_add(conv(n0, x, k), ea + ec, conv(n1, y, k), eb + ed);
    lemma_add_mod_noop(conv(m0, l1, k), conv(m1, l2, k), p);
    lemma_add_mod_noop(conv(n0, x, k), conv(n1, y, k), p);
    assert((ea + eb) + (ec + ed) == (ea + ec) + (eb + ed));
}

/// A matrix row applied to two linear combinations of `x`, `y` is the
/// linear combination whose cofactors are the row times the cofactor matrix.
pub proof fn lemma_lin_compose(
    m0: Seq<u32>,
    m1: Seq<u32>,
    c0: Seq<u32>,
    c1: Seq<u32>,
    c2: Seq<u32>,
    c3: Seq<u32>,
    x: Seq<u32>,
    y: Seq<u32>,
)
    ensures
        add_spec(mul_spec(m0, lin(c0, c1, x, y)), mul_spec(m1, lin(c2, c3, x, y))) == lin(
            add_spec(mul_spec(m0, c0), mul_spec(m1, c2)),
            add_spec(mul_spec(m0, c1), mul_spec(m1, c3)),
            x,
            y,
        ),
{
    let lhs = add_spec(mul_spec(m0, lin(c0, c1, x, y)), mul_spec(m1, lin(c2, c3, x, y)));
    let n0 = add_spec(mul_spec(m0, c0), mul_spec(m1, c2));
    let n1 = add_spec(mul_spec(m0, c1), mul_spec(m1, c3));
    let rhs = lin(n0, n1, x, y);
    lemma_ops_canon(mul_spec(m0, lin(c0, c1, x, y)), mul_spec(m1, lin(c2, c3, x, y)), 0);
    lemma_ops_canon(mul_spec(n0, x), mul_spec(n1, y), 0);
    assert forall|k: int| #[trigger] coef(lhs, k) == coef(rhs, k) by {
        lemma_lin_compose_coef(m0, m1, c0, c1, c2, c3, x, y, k);
    }
    lemma_trimmed_eq(lhs, rhs);
}

/// Adding a canonical polynomial to zero gives it back.
pub proof fn lemma_add_empty_left(x: Seq<u32>)
    requires
        canon(x),
    ensures
        add_spec(Seq::<u32>::empty(), x) == x,
{
    let e = Seq::<u32>::empty();
    lemma_ops_canon(e, x, 0);
    assert forall|k: int| #[trigger] coef(add_spec(e, x), k) == coef(x, k) by {
        lemma_add_spec_coef(e, x, k);
        if 0 <= k < x.len() {
            lemma_small_mod(x[k] as nat, modulus() as nat);
        } else {
            lemma_small_mod(0, modulus() as nat);
        }
    }
    lemma_trimmed_eq(add_spec(e, x), x);
}

/// A Euclidean division `a = q b + r` is the row pair `[0, 1]`, `[1, -q]`
/// applied to `(a, b)`.
pub proof fn lemma_divmod_step(a: Seq<u32>, b: Seq<u32>, q: Seq<u32>, r: Seq<u32>)
    requires
        canon(a),
        canon(b),
        is_divmod(a, b, q, r),
    ensures
        b == add_spec(mul_spec(Seq::<u32>::empty(), a), mul_spec(seq![1u32], b)),
        r == add_spec(mul_spec(seq![1u32], a), mul_spec(scalar_spec(q, P - 1), b)),
{
    let p = modulus();
    let e = Seq::<u32>::empty();
    let one = seq![1u32];
    let nq = scalar_spec(q, P - 1);
    lemma_mul_one_left(a);
    lemma_mul_one_left(b);
    assert(mul_spec(e, a) == e);
    lemma_add_empty_left(b);
    let lhs = add_spec(a, mul_spec(nq, b));
    lemma_ops_canon(a, mul_spec(nq, b), 0);
    assert forall|k: int| #[trigger] coef(lhs, k) == coef(r, k) by {
        let cq = conv(q, b, k);
        lemma_add_spec_coef(a, mul_spec(nq, b), k);
        lemma_mul_spec_coef(nq, b, k);
        lemma_add_mod_noop_right(coef(a, k), conv(nq, b, k), p);
        lemma_conv_scalar_left(q, P - 1, b, k);
        lemma_mod_multiples_vanish(cq, -cq, p);
        assert((P - 1) * cq == p * cq + -cq) by (nonlinear_arith)
            requires
                p == P;
        assert(eqm(conv(nq, b, k), -cq));
        lemma_eqm_add(coef(a, k), coef(a, k), conv(nq, b, k), -cq);
        assert(eqm(coef(lhs, k), coef(a, k) - cq));
        assert(eqm(cq + coef(r, k), coef(a, k)));
        lemma_eqm_sub(cq + coef(r, k), coef(a, k), cq, cq);
        assert(eqm(coef(r, k), coef(a, k) - cq));
        lemma_mod_bound(coef(a, k) - cq, p);
        if 0 <= k < r.len() {
            lemma_small_mod(r[k] as nat, p as nat);
        } else {
            lemma_small_mod(0, p as nat);
        }
        if 0 <= k < lhs.len() {
            lemma_small_mod(lhs[k] as nat, p as nat);
        } else {
            lemma_small_mod(0, p as nat);
        }
    }
    lemma_trimmed_eq(lhs, r);
}

/// Division by a nonzero polynomial always exists.
#[verifier::spinoff_prover]
#[verifier::rlimit(40)]
pub proof fn lemma_division_exists(a: Seq<u32>, b: Seq<u32>) -> (qr: (Seq<u32>, Seq<u32>))
    requires
        reduced(a),
        canon(b),
        b.len() > 0,
    ensures
        is_divmod(a, b, qr.0, qr.1),
    decreases trim_spec(a).len(),
{
    let p = modulus();
    let t = trim_spec(a);
    lemma_trim(a);
    lemma_trim_canon(b);
    if t.len() < b.len() {
        let e = Seq::<u32>::empty();
        assert forall|k: int| #[trigger] ((conv(e, b, k) + coef(t, k)) % p) == coef(a, k) % p by {
            assert(conv(e, b, k) == 0);
        }
        (e, t)
    } else {
        let n = t.len();
        let s = (n - b.len()) as nat;
        let lb = b.last() as int;
        let top = t.last() as int;
        let iv = inv_spec(lb);
        let c = ((top * iv) % p) as u32;
        let m = monomial(c, s);
        let mb = mul_spec(m, b);
        let a2 = sub_spec(a, mb);
        lemma_ops_canon(a, mb, 0);
        lemma_trim_canon(a2);
        lemma_small_mod(lb as nat, p as nat);
        lemma_inverse(lb);
        lemma_mul_mod_noop_right(lb, pow(lb, (p - 2) as nat), p);
        lemma_mod_bound(top * iv, p);
        lemma_unit_cancel(top, iv, lb, c as int);
        lemma_small_mod(top as nat, p as nat);
        assert forall|j: int| j >= n - 1 implies #[trigger] coef(a2, j) == 0 by {
            lemma_add_spec_coef(a, mb, j);
            lemma_mul_spec_coef(m, b, j);
            lemma_conv_monomial(c, s, b, j, (s + 1) as int);
            assert(conv(m, b, j) == c * coef(b, j - s));
            if j == n - 1 {
                assert(coef(b, j - s) == lb);
                assert(coef(a, j) == top);
                assert((top - (c * lb) % p) % p == 0) by {
                    lemma_sub_mod_noop(top, c * lb, p);
                }
            } else {
                assert(coef(b, j - s) == 0);
                assert(coef(a, j) == coef(t, j));
                lemma_small_mod(0, p as nat);
            }
        }
        if a2.len() >= n {
            assert(coef(a2, a2.len() - 1) == 0);
            assert(false);
        }
        let (q2, r) = lemma_division_exists(a2, b);
        let q = add_spec(q2, m);
        lemma_ops_canon(q2, m, 0);
        assert forall|k: int| #[trigger] ((conv(q, b, k) + coef(r, k)) % p) == coef(a, k) % p by {
            lemma_conv_add_left(q2, m, b, k);
            assert(((conv(q2, b, k) + coef(r, k)) % p) == coef(a2, k) % p);
            lemma_add_spec_coef(a, mb, k);
            lemma_mul_spec_coef(m, b, k);
            lemma_sub_mod_noop(coef(a, k), conv(m, b, k), p);
            lemma_mod_twice(coef(a, k) - conv(m, b, k), p);
            assert(eqm(coef(a2, k), coef(a, k) - conv(m, b, k)));
            lemma_eqm_add(conv(q2, b, k) + coef(r, k), coef(a, k) - conv(m, b, k), conv(m, b, k), conv(m, b, k));
            lemma_eqm_add(conv(q, b, k), conv(q2, b, k) + conv(m, b, k), coef(r, k), coef(r, k));
        }
        (q, r)
    }
}

/// The remainder by a nonzero polynomial is a true remainder.
pub proof fn lemma_rem_spec_facts(a: Seq<u32>, b: Seq<u32>)
    requires
        reduced(a),
        canon(b),
        b.len() > 0,
    ensures
        has_rem(a, b, rem_spec(a, b)),
        canon(rem_spec(a, b)),
        rem_spec(a, b).len() < b.len(),
{
    let (q, r) = lemma_division_exists(a, b);
    assert(has_rem(a, b, r));
    crate::poly_ring::lemma_has_rem_facts(a, b, rem_spec(a, b));
    lemma_trim_canon(b);
}

/// The Euclidean algorithm ends in a common divisor that every common
/// divisor divides.
pub proof fn lemma_euclid_gcd(a: Seq<u32>, b: Seq<u32>)
    requires
        canon(a),
        canon(b),
    ensures
        canon(euclid(a, b)),
        divides(euclid(a, b), a),
        divides(euclid(a, b), b),
        forall|d: Seq<u32>| #[trigger] divides(d, a) && divides(d, b) ==> divides(d, euclid(a, b)),
    decreases b.len(),
{
    if b.len() == 0 {
        lemma_divides_self(a);
        lemma_divides_zero(a);
        assert(b =~= Seq::<u32>::empty());
    } else {
        lemma_rem_spec_facts(a, b);
        let r = rem_spec(a, b);
        let q = choose|q: Seq<u32>| #[trigger] is_divmod(a, b, q, r);
        assert(is_divmod(a, b, q, r));
        lemma_euclid_gcd(b, r);
        let e = euclid(b, r);
        assert(euclid(a, b) == e);
        lemma_divides_dividend(a, b, q, r, e);
        assert forall|d: Seq<u32>| #[trigger] divides(d, a) && divides(d, b) implies divides(d, e) by {
            lemma_divides_remainder(a, b, q, r, d);
            assert(divides(d, b) && divides(d, r));
        }
    }
}

/// `gcd_spec(a, b)` is the monic common divisor of `a` and `b` that every
/// common divisor divides; it is zero exactly when both are zero.
pub proof fn lemma_gcd_spec_char(a: Seq<u32>, b: Seq<u32>)
    requires
        reduced(a),
        reduced(b),
    ensures
        canon(gcd_spec(a, b)),
        gcd_spec(a, b).len() > 0 ==> gcd_spec(a, b).last() == 1,
        divides(gcd_spec(a, b), a),
        divides(gcd_spec(a, b), b),
        forall|d: Seq<u32>| #[trigger] divides(d, a) && divides(d, b) ==> divides(d, gcd_spec(a, b)),
        gcd_spec(a, b).len() == 0 <==> (trim_spec(a).len() == 0 && trim_spec(b).len() == 0),
{
    let ta = trim_spec(a);
    let tb = trim_spec(b);
    lemma_trim(a);
    lemma_trim(b);
    let e = euclid(ta, tb);
    lemma_euclid_gcd(ta, tb);
    lemma_monic_canon(e);
    let g = monic(e);
    assert(g == gcd_spec(a, b));
    assert forall|i: int| #[trigger] eqm(coef(ta, i), coef(a, i)) by {}
    assert forall|i: int| #[trigger] eqm(coef(tb, i), coef(b, i)) by {}
    assert forall|i: int| #[trigger] eqm(coef(a, i), coef(ta, i)) by {}
    assert forall|i: int| #[trigger] eqm(coef(b, i), coef(tb, i)) by {}
    if e.len() > 0 {
        lemma_divides_monic(e, ta);
        lemma_divides_monic(e, tb);
        lemma_divides_coefs(g, g, ta, a);
        lemma_divides_coefs(g, g, tb, b);
        assert forall|d: Seq<u32>| #[trigger] divides(d, a) && divides(d, b) implies divides(d, g) by {
            lemma_divides_coefs(d, d, a, ta);
            lemma_divides_coefs(d, d, b, tb);
            lemma_divides_into_monic(d, e);
        }
        if ta.len() == 0 && tb.len() == 0 {
            assert(e == ta);
        }
    } else {
        assert(e =~= Seq::<u32>::empty());
        lemma_divided_by_zero(ta);
        lemma_divided_by_zero(tb);
        lemma_trim_canon(ta);
        lemma_trim_canon(tb);
        lemma_divides_coefs(g, g, ta, a);
        lemma_divides_coefs(g, g, tb, b);
        assert forall|d: Seq<u32>| #[trigger] divides(d, a) && divides(d, b) implies divides(d, g) by {
            lemma_divides_zero(d);
        }
    }
}

/// A nonzero multiple is at least as long as its divisor.
pub proof fn lemma_divisor_len(g: Seq<u32>, f: Seq<u32>)
    requires
        canon(g),
        g.len() > 0,
        canon(f),
        f.len() > 0,
        divides(g, f),
    ensures
        g.len() <= f.len(),
{
    if f.len() < g.len() {
        let p = modulus();
        let e = Seq::<u32>::empty();
        lemma_trim_canon(g);
        assert forall|k: int| #[trigger] ((conv(e, g, k) + coef(f, k)) % p) == coef(f, k) % p by {
            assert(conv(e, g, k) == 0);
        }
        assert(is_divmod(f, g, e, f));
        assert(has_rem(f, g, f));
        lemma_divides_rem(g, f);
        let r0 = rem_spec(f, g);
        assert(has_rem(f, g, r0));
        let q0 = choose|q: Seq<u32>| #[trigger] is_divmod(f, g, q, r0);
        assert(is_divmod(f, g, q0, r0));
        crate::poly_spec::lemma_divmod_unique(f, g, e, f, q0, r0);
        assert(false);
    }
}

/// Two monic polynomials that divide each other are equal.
pub proof fn lemma_monic_divisor_unique(g1: Seq<u32>, g2: Seq<u32>)
    requires
        canon(g1),
        canon(g2),
        g1.len() > 0,
        g2.len() > 0,
        g1.last() == 1,
        g2.last() == 1,
        divides(g1, g2),
        divides(g2, g1),
    ensures
        g1 == g2,
{
    let p = modulus();
    let n = g1.len();
    lemma_divisor_len(g1, g2);
    lemma_divisor_len(g2, g1);
    let one = seq![1u32];
    let r = sub_spec(g2, g1);
    lemma_ops_canon(g2, g1, 0);
    assert forall|j: int| j >= n - 1 implies #[trigger] coef(r, j) == 0 by {
        lemma_add_spec_coef(g2, g1, j);
        lemma_small_mod(0, p as nat);
    }
    if r.len() >= n {
        assert(coef(r, r.len() - 1) == 0);
        assert(false);
    }
    lemma_trim_canon(g1);
    assert forall|k: int| #[trigger] ((conv(one, g1, k) + coef(r, k)) % p) == coef(g2, k) % p by {
        assert(conv(one, g1, k) == conv_upto(one, g1, k, 1));
        assert(conv_upto(one, g1, k, 0) == 0);
        assert(coef(one, 0) == 1);
        assert(conv(one, g1, k) == coef(g1, k));
        lemma_add_spec_coef(g2, g1, k);
        lemma_add_mod_noop_right(coef(g1, k), coef(g2, k) - coef(g1, k), p);
    }
    assert(is_divmod(g2, g1, one, r));
    lemma_divides_self(g1);
    lemma_divides_remainder(g2, g1, one, r, g1);
    if r.len() > 0 {
        lemma_divisor_len(g1, r);
        assert(false);
    }
    assert forall|k: int| #[trigger] coef(g1, k) == coef(g2, k) by {
        lemma_add_spec_coef(g2, g1, k);
        assert(coef(r, k) == 0);
        let x = coef(g1, k);
        let y = coef(g2, k);
        assert(0 <= x < p && 0 <= y < p);
        if y > x {
            lemma_small_mod((y - x) as nat, p as nat);
        } else if y < x {
            lemma_small_mod((y - x + p) as nat, p as nat);
            lemma_mod_add_multiples_vanish(y - x, p);
        }
    }
    lemma_trimmed_eq(g1, g2);
}

/// A common divisor of `x` and `y` divides every combination `c0 x + c1 y`.
pub proof fn lemma_divides_lin(d: Seq<u32>, c0: Seq<u32>, c1: Seq<u32>, x: Seq<u32>, y: Seq<u32>)
    requires
        divides(d, x),
        divides(d, y),
    ensures
        divides(d, lin(c0, c1, x, y)),
{
    let p = modulus();
    let e = Seq::<u32>::empty();
    let hx = choose|h: Seq<u32>| #[trigger] congruent_by(e, x, d, h);
    let hy = choose|h: Seq<u32>| #[trigger] congruent_by(e, y, d, h);
    let w = add_spec(mul_spec(c0, hx), mul_spec(c1, hy));
    let l = lin(c0, c1, x, y);
    assert forall|k: int| #[trigger] eqm(coef(e, k) + conv(w, d, k), coef(l, k)) by {
        lemma_conv_add_left(mul_spec(c0, hx), mul_spec(c1, hy), d, k);
        lemma_conv_assoc(c0, hx, d, k);
        lemma_conv_assoc(c1, hy, d, k);
        assert forall|i: int| 0 <= i <= k implies #[trigger] (coef(mul_spec(hx, d), i) % p) == coef(x, i) % p by {
            lemma_mul_spec_coef(hx, d, i);
            lemma_mod_twice(conv(hx, d, i), p);
            assert(eqm(coef(e, i) + conv(hx, d, i), coef(x, i)));
        }
        assert forall|i: int| 0 <= i <= k implies #[trigger] (coef(mul_spec(hy, d), i) % p) == coef(y, i) % p by {
            lemma_mul_spec_coef(hy, d, i);
            lemma_mod_twice(conv(hy, d, i), p);
            assert(eqm(coef(e, i) + conv(hy, d, i), coef(y, i)));
        }
        assert forall|i: int| 0 <= i <= k implies #[trigger] (coef(c0, i) % p) == coef(c0, i) % p by {}
        assert forall|i: int| 0 <= i <= k implies #[trigger] (coef(c1, i) % p) == coef(c1, i) % p by {}
        lemma_conv_prefix(c0, c0, mul_spec(hx, d), x, k);
        lemma_conv_prefix(c1, c1, mul_spec(hy, d), y, k);
        lemma_add_spec_coef(mul_spec(c0, x), mul_spec(c1, y), k);
        lemma_mul_spec_coef(c0, x, k);
        lemma_mul_spec_coef(c1, y, k);
        lemma_add_mod_noop(conv(c0, x, k), conv(c1, y, k), p);
        lemma_eqm_add(conv(mul_spec(c0, hx), d, k), conv(c0, x, k), conv(mul_spec(c1, hy), d, k), conv(c1, y, k));
    }
    assert(congruent_by(e, l, d, w));
}

/// The division identity in exact form: a quotient and remainder of `a` by
/// `b` give back `a`, trimmed, as `q b + r`, with `r` shorter than `b`.
pub proof fn law_division_identity(a: Seq<u32>, b: Seq<u32>, q: Seq<u32>, r: Seq<u32>)
    requires
        reduced(a),
        is_divmod(a, b, q, r),
    ensures
        add_spec(mul_spec(q, b), r) == trim_spec(a),
        r.len() < trim_spec(b).len(),
        canon(q),
        canon(r),
{
    let p = modulus();
    let lhs = add_spec(mul_spec(q, b), r);
    lemma_ops_canon(mul_spec(q, b), r, 0);
    lemma_trim(a);
    assert forall|k: int| #[trigger] coef(lhs, k) == coef(trim_spec(a), k) by {
        lemma_add_spec_coef(mul_spec(q, b), r, k);
        lemma_mul_spec_coef(q, b, k);
        lemma_add_mod_noop(conv(q, b, k), coef(r, k), p);
        lemma_mod_twice(coef(r, k), p);
        if 0 <= k < r.len() {
            lemma_small_mod(r[k] as nat, p as nat);
        } else {
            lemma_small_mod(0, p as nat);
        }
        if 0 <= k < a.len() {
            lemma_small_mod(a[k] as nat, p as nat);
        } else {
            lemma_small_mod(0, p as nat);
        }
    }
    lemma_trimmed_eq(lhs, trim_spec(a));
}

/// The Euclidean resultant is a field element.
proof fn lemma_res_seq_bound(a: Seq<u32>, b: Seq<u32>)
    ensures
        0 <= res_seq(a, b) < modulus(),
{
    let p = modulus();
    if b.len() <= 1 {
        lemma_mod_bound(pow(coef(b, 0), (a.len() - 1) as nat), p);
    } else {
        let r = rem_spec(a, b);
        if !(r.len() == 0 || r.len() >= b.len()) {
            lemma_mod_bound(
                signed(a.len() - 1, b.len() - 1, pow(lead(b), (a.len() - r.len()) as nat)) * res_seq(b, r),
                p,
            );
        }
    }
}

/// `x` with a sign is zero in F_p exactly when `x` is.
proof fn lemma_signed_zero(m: int, n: int, x: int)
    requires
        0 <= x < modulus(),
    ensures
        0 <= signed(m, n, x) < modulus(),
        (signed(m, n, x) == 0) <==> (x == 0),
{
    let p = modulus();
    lemma_small_mod(x as nat, p as nat);
    lemma_mod_bound(0 - x, p);
    lemma_add_mod_noop(0 - x, x, p);
    lemma_small_mod(0, p as nat);
    lemma_mod_twice(0 - x, p);
}

/// For canonical `a`, `b` with `b` nonzero and not longer than `a`, the
/// Euclidean resultant vanishes exactly when the Euclidean gcd is not a
/// constant.
proof fn lemma_res_seq_zero(a: Seq<u32>, b: Seq<u32>)
    requires
        canon(a),
        canon(b),
        1 <= b.len() <= a.len(),
    ensures
        (res_seq(a, b) == 0) <==> euclid(a, b).len() > 1,
    decreases b.len(),
{
    let p = modulus();
    lemma_rem_spec_facts(a, b);
    let r = rem_spec(a, b);
    if b.len() <= 1 {
        assert(r.len() == 0);
        assert(euclid(b, r) == b);
        assert(euclid(a, b) == euclid(b, r));
        assert(b.last() != 0 && b[0] < P);
        assert(coef(b, 0) == b[0] as int);
        crate::poly::lemma_pow_nonzero_mod(coef(b, 0), (a.len() - 1) as nat);
    } else if r.len() == 0 {
        assert(euclid(b, r) == b);
        assert(euclid(a, b) == euclid(b, r));
    } else {
        lemma_res_seq_zero(b, r);
        assert(euclid(a, b) == euclid(b, r));
        let x = pow(lead(b), (a.len() - r.len()) as nat);
        assert(0 < lead(b) < P);
        crate::poly::lemma_pow_nonzero_mod(lead(b), (a.len() - r.len()) as nat);
        lemma_mod_bound(x, p);
        let s = signed(a.len() - 1, b.len() - 1, x);
        let t = res_seq(b, r);
        lemma_res_seq_bound(b, r);
        // s == signed of x % p, zero exactly when x % p is
        assert(s == signed(a.len() - 1, b.len() - 1, x % p)) by {
            lemma_sub_mod_noop(0, x, p);
            lemma_small_mod(0, p as nat);
            lemma_mod_twice(x, p);
        }
        lemma_signed_zero(a.len() - 1, b.len() - 1, x % p);
        assert(res_seq(a, b) == (s * t) % p);
        if t == 0 {
            lemma_mul_basics(s);
            lemma_small_mod(0, p as nat);
        } else {
            lemma_small_mod(s as nat, p as nat);
            lemma_small_mod(t as nat, p as nat);
            crate::field::lemma_field_no_zero_divisors(s, t);
        }
    }
}

/// The remainder of a shorter polynomial is itself.
proof fn lemma_rem_of_shorter(f: Seq<u32>, g: Seq<u32>)
    requires
        canon(f),
        canon(g),
        f.len() < g.len(),
    ensures
        rem_spec(f, g) == f,
{
    let p = modulus();
    let e = Seq::<u32>::empty();
    lemma_trim_canon(g);
    assert forall|k: int| #[trigger] ((conv(e, g, k) + coef(f, k)) % p) == coef(f, k) % p by {
        assert(conv(e, g, k) == 0);
    }
    assert(is_divmod(f, g, e, f));
    assert(has_rem(f, g, f));
    let r0 = rem_spec(f, g);
    assert(has_rem(f, g, r0));
    let q0 = choose|q: Seq<u32>| #[trigger] is_divmod(f, g, q, r0);
    assert(is_divmod(f, g, q0, r0));
    crate::poly_spec::lemma_divmod_unique(f, g, e, f, q0, r0);
}

/// The resultant of two nonzero polynomials vanishes exactly when they have
/// a common factor of positive degree, that is, when their gcd is not
/// constant.
pub proof fn law_resultant_zero_iff_common_factor(a: Seq<u32>, b: Seq<u32>)
    requires
        reduced(a),
        reduced(b),
        trim_spec(a).len() > 0,
        trim_spec(b).len() > 0,
    ensures
        (res_spec(a, b) == 0) <==> gcd_spec(a, b).len() > 1,
{
    let ta = trim_spec(a);
    let tb = trim_spec(b);
    lemma_trim(a);
    lemma_trim(b);
    let e = euclid(ta, tb);
    lemma_euclid_gcd(ta, tb);
    lemma_monic_canon(e);
    if ta.len() < tb.len() {
        lemma_rem_of_shorter(ta, tb);
        assert(euclid(ta, tb) == euclid(tb, ta));
        lemma_res_seq_zero(tb, ta);
        lemma_res_seq_bound(tb, ta);
        lemma_signed_zero(tb.len() - 1, ta.len() - 1, res_seq(tb, ta));
    } else {
        lemma_res_seq_zero(ta, tb);
    }
}

} // verus!
