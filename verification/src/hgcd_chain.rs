//! Division chains: a pair `(a, b)` carried through the division matrices
//! `[[0, 1], [1, -q]]` of a list of quotients. When every quotient has
//! positive degree and the last pair has falling degrees, every step of the
//! chain is a Euclidean division, read backwards from the last pair.
use vstd::arithmetic::div_mod::*;
use vstd::arithmetic::mul::*;
use vstd::prelude::*;

use crate::field::modulus;
use crate::poly_gcd::{lemma_add_empty_left, lemma_lin_compose, lin};
use crate::poly_ring::{eqm, lemma_add_empty_right, lemma_conv_top, lemma_mul_one_left};
use crate::poly_spec::{
    add_spec, canon, coef, conv, is_divmod, lead, lemma_add_spec_coef, lemma_conv_high_zero, lemma_mul_spec_coef,
    lemma_ops_canon, lemma_trim_canon, mul_spec, scalar_spec,
};
use crate::P;

verus! {

/// The division matrix `[[0, 1], [1, -q]]`, by rows.
pub open spec fn qstep(q: Seq<u32>) -> Seq<Seq<u32>> {
    seq![Seq::<u32>::empty(), seq![1u32], seq![1u32], scalar_spec(q, P - 1)]
}

/// The identity matrix, by rows.
pub open spec fn ident_spec() -> Seq<Seq<u32>> {
    seq![seq![1u32], Seq::<u32>::empty(), Seq::<u32>::empty(), seq![1u32]]
}

/// The product `x y` of two 2x2 polynomial matrices.
pub open spec fn mat_mul_spec(x: Seq<Seq<u32>>, y: Seq<Seq<u32>>) -> Seq<Seq<u32>> {
    seq![
        add_spec(mul_spec(x[0], y[0]), mul_spec(x[1], y[2])),
        add_spec(mul_spec(x[0], y[1]), mul_spec(x[1], y[3])),
        add_spec(mul_spec(x[2], y[0]), mul_spec(x[3], y[2])),
        add_spec(mul_spec(x[2], y[1]), mul_spec(x[3], y[3])),
    ]
}

/// The product of the division matrices of `qs`, the last one leftmost.
pub open spec fn qprod(qs: Seq<Seq<u32>>) -> Seq<Seq<u32>>
    decreases qs.len(),
{
    if qs.len() == 0 {
        ident_spec()
    } else {
        mat_mul_spec(qstep(qs.last()), qprod(qs.drop_last()))
    }
}

/// `(a, b)` after the divisions by `qs`, one matrix at a time.
pub open spec fn chain(a: Seq<u32>, b: Seq<u32>, qs: Seq<Seq<u32>>) -> (Seq<u32>, Seq<u32>)
    decreases qs.len(),
{
    if qs.len() == 0 {
        (a, b)
    } else {
        let c = chain(a, b, qs.drop_last());
        (
            add_spec(mul_spec(Seq::<u32>::empty(), c.0), mul_spec(seq![1u32], c.1)),
            add_spec(mul_spec(seq![1u32], c.0), mul_spec(scalar_spec(qs.last(), P - 1), c.1)),
        )
    }
}

/// Every entry canonical.
pub open spec fn mat_canon(m: Seq<Seq<u32>>) -> bool {
    m.len() == 4 && forall|i: int| 0 <= i < 4 ==> canon(#[trigger] m[i])
}

proof fn lemma_qprod_canon(qs: Seq<Seq<u32>>)
    ensures
        mat_canon(qprod(qs)),
    decreases qs.len(),
{
    if qs.len() == 0 {
        assert(canon(seq![1u32]));
        assert(canon(Seq::<u32>::empty()));
    } else {
        let x = qstep(qs.last());
        let y = qprod(qs.drop_last());
        lemma_ops_canon(mul_spec(x[0], y[0]), mul_spec(x[1], y[2]), 0);
        lemma_ops_canon(mul_spec(x[0], y[1]), mul_spec(x[1], y[3]), 0);
        lemma_ops_canon(mul_spec(x[2], y[0]), mul_spec(x[3], y[2]), 0);
        lemma_ops_canon(mul_spec(x[2], y[1]), mul_spec(x[3], y[3]), 0);
    }
}

/// Matrix products associate.
pub proof fn lemma_mat_mul_assoc(x: Seq<Seq<u32>>, y: Seq<Seq<u32>>, z: Seq<Seq<u32>>)
    requires
        x.len() == 4,
        y.len() == 4,
        z.len() == 4,
    ensures
        mat_mul_spec(mat_mul_spec(x, y), z) == mat_mul_spec(x, mat_mul_spec(y, z)),
{
    lemma_lin_compose(x[0], x[1], y[0], y[1], y[2], y[3], z[0], z[2]);
    lemma_lin_compose(x[0], x[1], y[0], y[1], y[2], y[3], z[1], z[3]);
    lemma_lin_compose(x[2], x[3], y[0], y[1], y[2], y[3], z[0], z[2]);
    lemma_lin_compose(x[2], x[3], y[0], y[1], y[2], y[3], z[1], z[3]);
    assert(mat_mul_spec(mat_mul_spec(x, y), z) =~= mat_mul_spec(x, mat_mul_spec(y, z)));
}

/// The identity times a canonical matrix is that matrix.
proof fn lemma_ident_mul(m: Seq<Seq<u32>>)
    requires
        mat_canon(m),
    ensures
        mat_mul_spec(ident_spec(), m) == m,
{
    let e = Seq::<u32>::empty();
    assert forall|i: int| 0 <= i < 4 implies #[trigger] mul_spec(seq![1u32], m[i]) == m[i] by {
        lemma_mul_one_left(m[i]);
    }
    assert forall|i: int| 0 <= i < 4 implies #[trigger] mul_spec(e, m[i]) == e by {}
    lemma_add_empty_right(m[0]);
    lemma_add_empty_right(m[1]);
    lemma_add_empty_left(m[2]);
    lemma_add_empty_left(m[3]);
    assert(mat_mul_spec(ident_spec(), m) =~= m);
}

/// The product over two lists in turn is the product of their products.
pub proof fn lemma_qprod_concat(l1: Seq<Seq<u32>>, l2: Seq<Seq<u32>>)
    ensures
        qprod(l1 + l2) == mat_mul_spec(qprod(l2), qprod(l1)),
    decreases l2.len(),
{
    if l2.len() == 0 {
        assert(l1 + l2 =~= l1);
        lemma_qprod_canon(l1);
        lemma_ident_mul(qprod(l1));
    } else {
        let l2p = l2.drop_last();
        let q = l2.last();
        assert((l1 + l2).drop_last() =~= l1 + l2p);
        assert((l1 + l2).last() == q);
        lemma_qprod_concat(l1, l2p);
        lemma_mat_mul_assoc(qstep(q), qprod(l2p), qprod(l1));
        lemma_qprod_canon(l2p);
    }
}

/// The product applied to a canonical pair is the chain.
pub proof fn lemma_qprod_chain(a: Seq<u32>, b: Seq<u32>, qs: Seq<Seq<u32>>)
    requires
        canon(a),
        canon(b),
    ensures
        lin(qprod(qs)[0], qprod(qs)[1], a, b) == chain(a, b, qs).0,
        lin(qprod(qs)[2], qprod(qs)[3], a, b) == chain(a, b, qs).1,
        canon(chain(a, b, qs).0),
        canon(chain(a, b, qs).1),
    decreases qs.len(),
{
    if qs.len() == 0 {
        lemma_mul_one_left(a);
        lemma_mul_one_left(b);
        assert(mul_spec(Seq::<u32>::empty(), a) == Seq::<u32>::empty());
        assert(mul_spec(Seq::<u32>::empty(), b) == Seq::<u32>::empty());
        lemma_add_empty_right(a);
        lemma_add_empty_left(b);
    } else {
        let p = qprod(qs.drop_last());
        let x = qstep(qs.last());
        lemma_qprod_chain(a, b, qs.drop_last());
        lemma_lin_compose(x[0], x[1], p[0], p[1], p[2], p[3], a, b);
        lemma_lin_compose(x[2], x[3], p[0], p[1], p[2], p[3], a, b);
        let c = chain(a, b, qs.drop_last());
        lemma_ops_canon(mul_spec(x[0], c.0), mul_spec(x[1], c.1), 0);
        lemma_ops_canon(mul_spec(x[2], c.0), mul_spec(x[3], c.1), 0);
    }
}

/// One step read backwards: if `z = x - q y` with `z` shorter than `y` and
/// `q` of positive degree, then `z` is the remainder of `x` by `y`, and `x`
/// has the degree and leading coefficient of `q y`.
pub proof fn lemma_back_step(x: Seq<u32>, y: Seq<u32>, q: Seq<u32>, z: Seq<u32>)
    requires
        canon(x),
        canon(y),
        canon(q),
        canon(z),
        q.len() >= 2,
        z.len() < y.len(),
        z == add_spec(mul_spec(seq![1u32], x), mul_spec(scalar_spec(q, P - 1), y)),
    ensures
        is_divmod(x, y, q, z),
        x.len() == q.len() + y.len() - 1,
        eqm(lead(x), lead(q) * lead(y)),
{
    let p = modulus();
    lemma_mul_one_left(x);
    lemma_trim_canon(y);
    let nq = scalar_spec(q, P - 1);
    assert forall|k: int| #[trigger] ((conv(q, y, k) + coef(z, k)) % p) == coef(x, k) % p by {
        let cq = conv(q, y, k);
        lemma_add_spec_coef(x, mul_spec(nq, y), k);
        lemma_mul_spec_coef(nq, y, k);
        lemma_add_mod_noop_right(coef(x, k), conv(nq, y, k), p);
        crate::poly_divides::lemma_conv_scalar_left(q, P - 1, y, k);
        lemma_mod_multiples_vanish(cq, -cq, p);
        assert((P - 1) * cq == p * cq + -cq) by (nonlinear_arith)
            requires
                p == P;
        assert(eqm(conv(nq, y, k), -cq));
        crate::poly_divides::lemma_eqm_add(coef(x, k), coef(x, k), conv(nq, y, k), -cq);
        assert(eqm(coef(z, k), coef(x, k) - cq));
        crate::poly_divides::lemma_eqm_add(cq, cq, coef(z, k), coef(x, k) - cq);
    }
    assert(is_divmod(x, y, q, z));
    crate::poly_ring::lemma_quot_len(x, y, q, z);
    let t = q.len() + y.len() - 2;
    // nothing above t
    if x.len() > t + 1 {
        let j = x.len() - 1;
        crate::poly_spec::lemma_conv_high_zero(q, y, j, q.len() as int);
        assert(conv(q, y, j) == 0);
        assert(coef(z, j) == 0);
        assert(((conv(q, y, j) + coef(z, j)) % p) == coef(x, j) % p);
        lemma_small_mod(0, p as nat);
        assert(coef(x, j) % p == 0);
        lemma_small_mod(x[j] as nat, p as nat);
        assert(false);
    }
    lemma_conv_top(q, y);
    assert(coef(z, t) == 0);
    assert(((conv(q, y, t) + coef(z, t)) % p) == coef(x, t) % p);
    assert(coef(x, t) % p == (conv(q, y, t)) % p);
    assert(lead(x) == coef(x, t));
    assert(lead(q) == coef(q, q.len() - 1));
    assert(lead(y) == coef(y, y.len() - 1));
}

/// The facts of step `t` of a chain whose quotients all have positive
/// degree and whose last pair has falling degrees.
pub proof fn lemma_chain_step(a: Seq<u32>, b: Seq<u32>, qs: Seq<Seq<u32>>, t: int)
    requires
        canon(a),
        canon(b),
        forall|i: int| 0 <= i < qs.len() ==> canon(#[trigger] qs[i]) && qs[i].len() >= 2,
        0 <= t < qs.len(),
        chain(a, b, qs).1.len() < chain(a, b, qs).0.len(),
    ensures
        ({
            let x = chain(a, b, qs.take(t)).0;
            let y = chain(a, b, qs.take(t)).1;
            let z = chain(a, b, qs.take(t + 1)).1;
            &&& canon(x) && canon(y) && canon(z)
            &&& chain(a, b, qs.take(t + 1)).0 == y
            &&& is_divmod(x, y, qs[t], z)
            &&& x.len() == qs[t].len() + y.len() - 1
            &&& z.len() < y.len()
            &&& eqm(lead(x), lead(qs[t]) * lead(y))
        }),
    decreases qs.len() - t,
{
    let c0 = chain(a, b, qs.take(t));
    let c1 = chain(a, b, qs.take(t + 1));
    assert(qs.take(t + 1).drop_last() =~= qs.take(t));
    assert(qs.take(t + 1).last() == qs[t]);
    lemma_qprod_chain(a, b, qs.take(t));
    lemma_qprod_chain(a, b, qs.take(t + 1));
    lemma_mul_one_left(c0.1);
    assert(mul_spec(Seq::<u32>::empty(), c0.0) == Seq::<u32>::empty());
    lemma_add_empty_left(c0.1);
    assert(c1.0 == c0.1);
    if t == qs.len() - 1 {
        assert(qs.take(t + 1) =~= qs);
    } else {
        lemma_chain_step(a, b, qs, t + 1);
        assert(qs[t + 1].len() >= 2);
    }
    assert(c1.1.len() < c1.0.len());
    lemma_back_step(c0.0, c0.1, qs[t], c1.1);
}

} // verus!
