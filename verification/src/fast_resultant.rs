//! Exact resultants over F_p by the Euclidean remainder sequence, and by a
//! half-GCD that records every elementary division step.
use vstd::arithmetic::div_mod::*;
use vstd::arithmetic::mul::*;
use vstd::arithmetic::power::*;
use vstd::prelude::*;

use crate::field::modulus;
use crate::poly as pl;
use crate::poly::{fmul, fpow, fpow_small_exp, fsub, lemma_parity_product, lemma_res_step};
use crate::poly_ring::lemma_has_rem_facts;
use crate::cico::{lemma_add_len, lemma_scalar_len};
use crate::poly_ring::lemma_mul_spec_len;
use crate::poly_spec::{
    add_spec, canon, coef, degree, lead, lemma_trim, lemma_trim_canon, mul_spec, reduced, rem_spec, res_seq,
    res_spec, scalar_spec, signed, trim_spec,
};
use crate::P;
use crate::poly_divides::divides;
use crate::poly_gcd::{
    lemma_add_empty_left, lemma_divides_lin, lemma_divmod_step, lemma_gcd_spec_char, lemma_lin_compose,
    lemma_monic_divisor_unique, lin,
};
use crate::poly_ring::lemma_mul_one_left;
use crate::hgcd_chain::{chain, ident_spec, lemma_chain_step, lemma_qprod_chain, lemma_qprod_concat, mat_mul_spec, qprod, qstep};
use crate::poly_ring::eqm;

verus! {

/// The resultant by the plain Euclidean remainder sequence.
pub fn resultant_eea(a_in: &[u32], b_in: &[u32]) -> (r: u32)
    requires
        reduced(a_in@),
        reduced(b_in@),
        a_in.len() <= 8388608,
        b_in.len() <= 8388608,
    ensures
        r as int == res_spec(a_in@, b_in@),
        r < P,
{
    let mut a = pl::trim(a_in);
    let mut b = pl::trim(b_in);
    proof {
        lemma_trim(a_in@);
        lemma_trim(b_in@);
        lemma_trim_canon(a@);
        lemma_trim_canon(b@);
    }
    if a.len() == 0 || b.len() == 0 {
        return 0;
    }
    let mut res: u32 = 1;
    if pl::deg(&a) < pl::deg(&b) {
        let t = a;
        a = b;
        b = t;
        if (pl::deg(&a) % 2 == 1) && (pl::deg(&b) % 2 == 1) {
            res = fsub(0, res);
        }
        proof {
            let da = a.len() - 1;
            let db = b.len() - 1;
            lemma_parity_product(da, db);
            assert(((db * da) % 2 == 1) == ((da * db) % 2 == 1)) by (nonlinear_arith);
            lemma_small_mod(res_seq(a@, b@) as nat, P as nat);
            if (da * db) % 2 == 1 {
                lemma_mul_mod_noop_left(-1, res_seq(a@, b@), modulus());
                lemma_mod_add_multiples_vanish(-1, modulus());
            }
        }
    } else {
        proof {
            lemma_small_mod(res_seq(a@, b@) as nat, P as nat);
        }
    }
    while pl::deg(&b) > 0
        invariant
            canon(a@),
            canon(b@),
            1 <= b.len() <= a.len() <= 8388608,
            res < P,
            res_spec(a_in@, b_in@) == (res as int * res_seq(a@, b@)) % modulus(),
        decreases b.len(),
    {
        let da = pl::deg(&a);
        let db = pl::deg(&b);
        let lc_b = b[b.len() - 1];
        let ghost av = a@;
        proof {
            lemma_trim_canon(b@);
            lemma_trim_canon(a@);
        }
        let r = pl::rem(&a, &b);
        proof {
            lemma_has_rem_facts(av, b@, r@);
        }
        if r.len() == 0 {
            proof {
                let z = res_seq(av, b@);
                assert(z == 0);
                assert(res as int * z == 0) by (nonlinear_arith)
                    requires
                        z == 0;
                lemma_small_mod(0nat, P as nat);
                assert((res as int * z) % modulus() == 0);
            }
            return 0;
        }
        let dr = pl::deg(&r);
        let ghost acc = res as int;
        proof {
            assert(da * db <= 8388608 * 8388608) by (nonlinear_arith)
                requires
                    0 <= da <= 8388608,
                    0 <= db <= 8388608;
        }
        if (da * db) % 2 == 1 {
            res = fsub(0, res);
        }
        let w = fpow_small_exp(lc_b, da - dr);
        proof {
            assert(res as int == signed(da as int, db as int, acc)) by {
                lemma_small_mod(acc as nat, P as nat);
            }
            assert(lead(b@) == lc_b);
            lemma_res_step(acc, pow(lc_b as int, (da - dr) as nat), res_seq(b@, r@), da as int, db as int);
            assert((av.len() - r.len()) as nat == (da - dr) as nat);
        }
        res = fmul(res, w);
        a = b;
        b = r;
    }
    let e = pl::deg(&a) as u64;
    let w = fpow(b[0] as u64, e);
    proof {
        assert(coef(b@, 0) == b[0]);
    }
    fmul(res, w)
}

// ---------------------------------------------------------------------------
// Half-GCD with step records
// ---------------------------------------------------------------------------

/// One elementary Euclidean division `(P, Q) -> (Q, R)`, by what survives a
/// uniform shift: the degree drop `deg Q - deg R` and the leading
/// coefficient of `Q`.
#[derive(Clone, Copy, Debug)]
pub struct StepRec {
    pub rdrop: i64,
    pub lc: u32,
}

/// A 2x2 matrix of polynomials, by rows.
pub type Mat = [Vec<u32>; 4];

/// Largest entry length the half-GCD lets a matrix reach.
pub const MAT_BOUND: usize = 4194304;

/// Below this degree the remainder sequence is driven directly.
pub const SMALL_DEGREE: i64 = 48;

/// Every entry reduced and at most `bound` long.
pub open spec fn mat_ok(m: Mat, bound: int) -> bool {
    forall|i: int| 0 <= i < 4 ==> reduced(#[trigger] m@[i]@) && m@[i]@.len() <= bound
}

/// Every record has a positive drop and a reduced leading coefficient.
pub open spec fn recs_ok(rec: Seq<StepRec>) -> bool {
    forall|i: int| 0 <= i < rec.len() ==> (#[trigger] rec[i]).rdrop >= 1 && rec[i].lc < P
}

/// The identity matrix.
pub fn ident() -> (m: Mat)
    ensures
        mat_ok(m, 1),
        m@[0]@ == seq![1u32],
        m@[1]@.len() == 0,
        m@[2]@.len() == 0,
        m@[3]@ == seq![1u32],
{
    let mut one_a: Vec<u32> = Vec::new();
    one_a.push(1);
    let mut one_b: Vec<u32> = Vec::new();
    one_b.push(1);
    let m: Mat = [one_a, Vec::new(), Vec::new(), one_b];
    proof {
        assert(m@[0]@ =~= seq![1u32]);
        assert(m@[3]@ =~= seq![1u32]);
    }
    m
}

/// `-a`.
pub fn neg(a: &[u32]) -> (r: pl::Poly)
    ensures
        r@ == scalar_spec(a@, P - 1),
        canon(r@),
        r.len() <= a.len(),
{
    proof {
        lemma_scalar_len(a@, P - 1);
    }
    pl::scalar(a, P - 1)
}

/// `a` divided by `x^k`, dropping the low coefficients.
pub fn shr(a: &[u32], k: usize) -> (r: pl::Poly)
    requires
        reduced(a@),
    ensures
        k >= a.len() ==> r.len() == 0,
        k < a.len() ==> r@ == trim_spec(a@.subrange(k as int, a.len() as int)),
        canon(r@),
        k < a.len() ==> r.len() <= a.len() - k,
        canon(a@) && k < a.len() ==> r.len() == a.len() - k,
{
    if k >= a.len() {
        let r: Vec<u32> = Vec::new();
        proof {
            assert(canon(r@)) by {
                lemma_trim(r@);
                lemma_trim_canon_empty();
            }
        }
        return r;
    }
    let mut v: Vec<u32> = Vec::new();
    let mut i: usize = k;
    while i < a.len()
        invariant
            k <= i <= a.len(),
            v@ == a@.subrange(k as int, i as int),
        decreases a.len() - i,
    {
        v.push(a[i]);
        i += 1;
        proof {
            assert(v@ =~= a@.subrange(k as int, i as int));
        }
    }
    proof {
        lemma_trim(v@);
        assert(reduced(v@));
        crate::poly_spec::lemma_ops_canon(v@, v@, 0);
        if canon(a@) {
            assert(v@.last() == a@.last());
            lemma_trim_canon(v@);
        }
    }
    let r = pl::trim(&v);
    proof {
        lemma_trim(v@);
    }
    r
}

proof fn lemma_trim_canon_empty()
    ensures
        canon(Seq::<u32>::empty()),
{
}

/// `m (a, b)`.
pub fn matvec(m: &Mat, a: &[u32], b: &[u32]) -> (r: (pl::Poly, pl::Poly))
    requires
        mat_ok(*m, MAT_BOUND as int),
        reduced(a@),
        reduced(b@),
        a.len() <= 8388608,
        b.len() <= 8388608,
    ensures
        r.0@ == add_spec(mul_spec(m@[0]@, a@), mul_spec(m@[1]@, b@)),
        r.1@ == add_spec(mul_spec(m@[2]@, a@), mul_spec(m@[3]@, b@)),
        canon(r.0@),
        canon(r.1@),
        r.0.len() <= MAT_BOUND + 8388608,
        r.1.len() <= MAT_BOUND + 8388608,
{
    proof {
        assert forall|i: int| 0 <= i < 4 implies #[trigger] trim_spec(m@[i]@).len() <= MAT_BOUND by {
            lemma_trim(m@[i]@);
        }
        lemma_trim(a@);
        lemma_trim(b@);
    }
    let p0 = pl::mul(&m[0], a);
    let p1 = pl::mul(&m[1], b);
    let p2 = pl::mul(&m[2], a);
    let p3 = pl::mul(&m[3], b);
    proof {
        lemma_mul_len(m@[0]@, a@);
        lemma_mul_len(m@[1]@, b@);
        lemma_mul_len(m@[2]@, a@);
        lemma_mul_len(m@[3]@, b@);
        lemma_add_len(p0@, p1@);
        lemma_add_len(p2@, p3@);
    }
    (pl::add(&p0, &p1), pl::add(&p2, &p3))
}

proof fn lemma_mul_len(a: Seq<u32>, b: Seq<u32>)
    ensures
        mul_spec(a, b).len() <= a.len() + b.len(),
        canon(mul_spec(a, b)),
{
    lemma_mul_spec_len(a, b);
    crate::poly_spec::lemma_ops_canon(a, b, 0);
}

/// `x y`.
pub fn matmul(x: &Mat, y: &Mat) -> (r: Mat)
    requires
        mat_ok(*x, MAT_BOUND as int),
        mat_ok(*y, MAT_BOUND as int),
    ensures
        r@[0]@ == add_spec(mul_spec(x@[0]@, y@[0]@), mul_spec(x@[1]@, y@[2]@)),
        r@[1]@ == add_spec(mul_spec(x@[0]@, y@[1]@), mul_spec(x@[1]@, y@[3]@)),
        r@[2]@ == add_spec(mul_spec(x@[2]@, y@[0]@), mul_spec(x@[3]@, y@[2]@)),
        r@[3]@ == add_spec(mul_spec(x@[2]@, y@[1]@), mul_spec(x@[3]@, y@[3]@)),
        mat_ok(r, 2 * MAT_BOUND),
        mat_view(r) == mat_mul_spec(mat_view(*x), mat_view(*y)),
{
    proof {
        assert forall|i: int| 0 <= i < 4 implies #[trigger] trim_spec(x@[i]@).len() <= MAT_BOUND by {
            lemma_trim(x@[i]@);
        }
        assert forall|i: int| 0 <= i < 4 implies #[trigger] trim_spec(y@[i]@).len() <= MAT_BOUND by {
            lemma_trim(y@[i]@);
        }
    }
    let e0 = pair_sum(&x[0], &y[0], &x[1], &y[2]);
    let e1 = pair_sum(&x[0], &y[1], &x[1], &y[3]);
    let e2 = pair_sum(&x[2], &y[0], &x[3], &y[2]);
    let e3 = pair_sum(&x[2], &y[1], &x[3], &y[3]);
    let r: Mat = [e0, e1, e2, e3];
    proof {
        assert(r@[0] == e0 && r@[1] == e1 && r@[2] == e2 && r@[3] == e3);
        assert(mat_view(r) =~= mat_mul_spec(mat_view(*x), mat_view(*y)));
    }
    r
}

/// `a b + c d`.
fn pair_sum(a: &[u32], b: &[u32], c: &[u32], d: &[u32]) -> (r: pl::Poly)
    requires
        reduced(a@),
        reduced(b@),
        reduced(c@),
        reduced(d@),
        a.len() <= MAT_BOUND,
        b.len() <= MAT_BOUND,
        c.len() <= MAT_BOUND,
        d.len() <= MAT_BOUND,
    ensures
        r@ == add_spec(mul_spec(a@, b@), mul_spec(c@, d@)),
        reduced(r@),
        r.len() <= 2 * MAT_BOUND,
{
    proof {
        lemma_trim(a@);
        lemma_trim(b@);
        lemma_trim(c@);
        lemma_trim(d@);
    }
    let p = pl::mul(a, b);
    let q = pl::mul(c, d);
    proof {
        lemma_mul_len(a@, b@);
        lemma_mul_len(c@, d@);
        lemma_add_len(p@, q@);
    }
    pl::add(&p, &q)
}

/// Every entry at most `MAT_BOUND` long.
fn mat_fits(m: &Mat) -> (b: bool)
    ensures
        b == (m@[0]@.len() <= MAT_BOUND && m@[1]@.len() <= MAT_BOUND && m@[2]@.len() <= MAT_BOUND && m@[3]@.len() <= MAT_BOUND),
{
    m[0].len() <= MAT_BOUND && m[1].len() <= MAT_BOUND && m[2].len() <= MAT_BOUND && m[3].len() <= MAT_BOUND
}

/// The identity matrix.
pub open spec fn is_ident(m: Mat) -> bool {
    &&& m@[0]@ == seq![1u32]
    &&& m@[1]@.len() == 0
    &&& m@[2]@.len() == 0
    &&& m@[3]@ == seq![1u32]
}

/// The identity matrix leaves a canonical pair unchanged.
proof fn lemma_ident_matvec(a: Seq<u32>, b: Seq<u32>)
    requires
        canon(a),
        canon(b),
    ensures
        add_spec(mul_spec(seq![1u32], a), mul_spec(Seq::<u32>::empty(), b)) == a,
        add_spec(mul_spec(Seq::<u32>::empty(), a), mul_spec(seq![1u32], b)) == b,
{
    lemma_mul_one_left(a);
    lemma_mul_one_left(b);
    assert(mul_spec(Seq::<u32>::empty(), a) == Seq::<u32>::empty());
    assert(mul_spec(Seq::<u32>::empty(), b) == Seq::<u32>::empty());
    crate::poly_ring::lemma_add_empty_right(a);
    lemma_add_empty_left(b);
}

/// A division matrix times the identity keeps its entries' lengths.
proof fn lemma_step_after_ident(x: Mat, y: Mat)
    requires
        is_ident(y),
    ensures
        add_spec(mul_spec(x@[0]@, y@[0]@), mul_spec(x@[1]@, y@[2]@)).len() <= x@[0]@.len(),
        add_spec(mul_spec(x@[0]@, y@[1]@), mul_spec(x@[1]@, y@[3]@)).len() <= x@[1]@.len(),
        add_spec(mul_spec(x@[2]@, y@[0]@), mul_spec(x@[3]@, y@[2]@)).len() <= x@[2]@.len(),
        add_spec(mul_spec(x@[2]@, y@[1]@), mul_spec(x@[3]@, y@[3]@)).len() <= x@[3]@.len(),
{
    let e = Seq::<u32>::empty();
    assert(y@[1]@ =~= e);
    assert(y@[2]@ =~= e);
    assert forall|i: int| 0 <= i < 4 implies #[trigger] mul_spec(x@[i]@, e) == e by {}
    assert forall|i: int| 0 <= i < 4 implies (#[trigger] mul_spec(x@[i]@, seq![1u32])).len() <= x@[i]@.len() by {
        lemma_mul_spec_len(x@[i]@, seq![1u32]);
    }
    lemma_add_len(mul_spec(x@[0]@, y@[0]@), e);
    lemma_add_len(e, mul_spec(x@[1]@, y@[3]@));
    lemma_add_len(mul_spec(x@[2]@, y@[0]@), e);
    lemma_add_len(e, mul_spec(x@[3]@, y@[3]@));
}

/// Recursive half-GCD on canonical `a`, `b` with `deg a > deg b`: returns
/// the matrix of the elementary Euclidean divisions it performed and pushes
/// one record per division onto `rec`, in order. A step whose operands
/// would leave the NTT's range, and a second recursion that would not be
/// smaller than the call itself, are not taken: the matrix so far is
/// returned with its records. The matrix is the product of one division
/// matrix `[[0, 1], [1, -q]]` per record, so it takes `(a, b)` along a chain
/// of divisions. A call that records nothing returns the identity, and one
/// whose `b` reaches half the degree of `a` records at least one division.
pub fn hgcd(a: &[u32], b: &[u32], rec: &mut Vec<StepRec>) -> (m: Mat)
    requires
        canon(a@),
        canon(b@),
        1 <= a.len() <= 8388608,
        b.len() < a.len(),
        recs_ok(old(rec)@),
    ensures
        mat_ok(m, MAT_BOUND as int),
        recs_ok(final(rec)@),
        final(rec)@.len() >= old(rec)@.len(),
        final(rec)@.subrange(0, old(rec)@.len() as int) == old(rec)@,
        final(rec)@.len() == old(rec)@.len() ==> is_ident(m),
        b.len() - 1 >= a.len() / 2 ==> final(rec)@.len() > old(rec)@.len(),
        exists|qs: Seq<Seq<u32>>|
            {
                &&& qs.len() == final(rec)@.len() - old(rec)@.len()
                &&& forall|i: int| 0 <= i < qs.len() ==> canon(#[trigger] qs[i])
                &&& mat_view(m) == qprod(qs)
                &&& (lin(m@[0]@, m@[1]@, a@, b@), lin(m@[2]@, m@[3]@, a@, b@)) == chain(a@, b@, qs)
            },
{
    let mut qs: Vec<pl::Poly> = Vec::new();
    let m = hgcd_quotients(a, b, rec, &mut qs);
    proof {
        let qv = polys_view(qs@);
        assert(qs@.subrange(0, qs@.len() as int) =~= qs@);
        lemma_qprod_chain(a@, b@, qv);
        assert forall|i: int| 0 <= i < qv.len() implies canon(#[trigger] qv[i]) by {
            assert(qv[i] == qs@[i]@);
        }
    }
    m
}

/// The entries of a matrix, by rows.
pub open spec fn mat_view(m: Mat) -> Seq<Seq<u32>> {
    seq![m@[0]@, m@[1]@, m@[2]@, m@[3]@]
}

/// The coefficient sequences of a list of polynomials.
pub open spec fn polys_view(v: Seq<Vec<u32>>) -> Seq<Seq<u32>> {
    Seq::new(v.len(), |i: int| v[i]@)
}

proof fn lemma_view_push(v: Seq<Vec<u32>>, lo: int, q: Vec<u32>)
    requires
        0 <= lo <= v.len(),
    ensures
        polys_view(v.push(q).subrange(lo, (v.len() + 1) as int)).drop_last() == polys_view(v.subrange(lo, v.len() as int)),
        polys_view(v.push(q).subrange(lo, (v.len() + 1) as int)).last() == q@,
        polys_view(v.push(q).subrange(lo, (v.len() + 1) as int)).len() > 0,
        v.push(q).subrange(0, lo) == v.subrange(0, lo),
{
    assert(polys_view(v.push(q).subrange(lo, (v.len() + 1) as int)).drop_last() =~= polys_view(v.subrange(lo, v.len() as int)));
    assert(v.push(q).subrange(0, lo) =~= v.subrange(0, lo));
}

proof fn lemma_view_split(v: Seq<Vec<u32>>, lo: int, mid: int, hi: int)
    requires
        0 <= lo <= mid <= hi <= v.len(),
    ensures
        polys_view(v.subrange(lo, hi)) == polys_view(v.subrange(lo, mid)) + polys_view(v.subrange(mid, hi)),
{
    assert(polys_view(v.subrange(lo, hi)) =~= polys_view(v.subrange(lo, mid)) + polys_view(v.subrange(mid, hi)));
}

proof fn lemma_prefix_trans<T>(v: Seq<T>, w: Seq<T>, u: Seq<T>)
    requires
        w.len() <= v.len(),
        u.len() <= w.len(),
        v.subrange(0, w.len() as int) == w,
        w.subrange(0, u.len() as int) == u,
    ensures
        v.subrange(0, u.len() as int) == u,
{
    assert(v.subrange(0, u.len() as int) =~= u) by {
        assert forall|i: int| 0 <= i < u.len() implies v.subrange(0, u.len() as int)[i] == u[i] by {
            assert(v.subrange(0, w.len() as int)[i] == w[i]);
            assert(w.subrange(0, u.len() as int)[i] == u[i]);
        }
    }
}

proof fn lemma_ident_view(m: Mat)
    requires
        is_ident(m),
    ensures
        mat_view(m) == ident_spec(),
{
    assert(m@[1]@ =~= Seq::<u32>::empty());
    assert(m@[2]@ =~= Seq::<u32>::empty());
    assert(mat_view(m) =~= ident_spec());
}

/// `hgcd`, also handing out, in order, the quotient of every division it
/// recorded: the matrix is the product of their division matrices.
#[verifier::rlimit(100)]
#[verifier::spinoff_prover]
pub fn hgcd_quotients(a: &[u32], b: &[u32], rec: &mut Vec<StepRec>, qs: &mut Vec<pl::Poly>) -> (m: Mat)
    requires
        canon(a@),
        canon(b@),
        1 <= a.len() <= 8388608,
        b.len() < a.len(),
        recs_ok(old(rec)@),
    ensures
        mat_ok(m, MAT_BOUND as int),
        recs_ok(final(rec)@),
        final(rec)@.len() >= old(rec)@.len(),
        final(rec)@.subrange(0, old(rec)@.len() as int) == old(rec)@,
        final(rec)@.len() == old(rec)@.len() ==> is_ident(m),
        b.len() - 1 >= a.len() / 2 ==> final(rec)@.len() > old(rec)@.len(),
        final(qs)@.len() >= old(qs)@.len(),
        final(qs)@.subrange(0, old(qs)@.len() as int) == old(qs)@,
        forall|i: int| old(qs)@.len() <= i < final(qs)@.len() ==> canon(#[trigger] final(qs)@[i]@),
        mat_view(m) == qprod(polys_view(final(qs)@.subrange(old(qs)@.len() as int, final(qs)@.len() as int))),
        final(qs)@.len() - old(qs)@.len() == final(rec)@.len() - old(rec)@.len(),
    decreases a.len(),
{
    let ghost q0 = qs@.len();
    let n = pl::deg(a);
    let m = ((n + 1) / 2) as usize;
    if pl::deg(b) < m as i64 {
        let i = ident();
        proof {
            lemma_ident_view(i);
            assert(polys_view(qs@.subrange(q0 as int, q0 as int)) =~= Seq::<Seq<u32>>::empty());
            assert(qs@.subrange(0, q0 as int) =~= qs@);
        }
        return i;
    }
    let sa = shr(a, m);
    let sb = shr(b, m);
    let ghost start = rec@.len();
    let ghost qs_before = qs@;
    let r = hgcd_quotients(&sa, &sb, rec, qs);
    let ghost q1 = qs@.len();
    let ghost l1 = polys_view(qs@.subrange(q0 as int, q1 as int));
    proof {
        assert(qs_before.subrange(0, old(qs)@.len() as int) =~= old(qs)@);
        lemma_prefix_trans(qs@, qs_before, old(qs)@);
    }
    let (aa, bb) = matvec(&r, a, b);
    proof {
        if rec@.len() == start {
            lemma_ident_matvec(a@, b@);
        }
    }
    if pl::deg(&bb) < m as i64 {
        return r;
    }
    if aa.len() >= bb.len() + 8388608 {
        return r;
    }
    proof {
        lemma_trim_canon(bb@);
    }
    let (q, c) = pl::divmod(&aa, &bb);
    proof {
        lemma_trim_canon(bb@);
        crate::poly_ring::lemma_quot_len(aa@, bb@, q@, c@);
    }
    if q.len() > MAT_BOUND {
        return r;
    }
    let nq = neg(&q);
    let mut one_a: Vec<u32> = Vec::new();
    one_a.push(1);
    let mut one_b: Vec<u32> = Vec::new();
    one_b.push(1);
    let qmat: Mat = [Vec::new(), one_a, one_b, nq];
    proof {
        assert(qmat@[0]@.len() == 0);
        assert(qmat@[0]@ =~= Seq::<u32>::empty());
        assert(qmat@[1]@ =~= seq![1u32]);
        assert(qmat@[2]@ =~= seq![1u32]);
        assert(mat_ok(qmat, MAT_BOUND as int));
        assert(mat_view(qmat) =~= qstep(q@));
    }
    let ghost qs_pre = qs@;
    let qr = matmul(&qmat, &r);
    proof {
        if rec@.len() == start {
            lemma_step_after_ident(qmat, r);
        }
    }
    if !mat_fits(&qr) {
        return r;
    }
    let bdeg = pl::deg(&bb);
    let cdeg = pl::deg(&c);
    let ghost before = rec@;
    rec.push(StepRec { rdrop: bdeg - cdeg, lc: bb[bb.len() - 1] });
    let ghost qv = q@;
    qs.push(q);
    let ghost l1q = polys_view(qs@.subrange(q0 as int, qs@.len() as int));
    proof {
        assert(rec@.subrange(0, before.len() as int) =~= before);
        assert(recs_ok(rec@)) by {
            assert(bb@.last() != 0);
        }
        lemma_view_push(qs_pre, q0 as int, q);
        assert(mat_view(qr) == qprod(l1q));
        assert(qs@.subrange(0, qs_pre.len() as int) =~= qs_pre);
        lemma_prefix_trans(qs@, qs_pre, old(qs)@);
        assert forall|i: int| q0 <= i < qs@.len() implies canon(#[trigger] qs@[i]@) by {
            if i < qs_pre.len() {
                assert(qs@[i] == qs_pre[i]);
            }
        }
    }
    let k = 2 * (m as i64) - bdeg;
    if k < 0 || cdeg < 0 {
        return qr;
    }
    let s_a = shr(&bb, k as usize);
    let s_b = shr(&c, k as usize);
    if s_a.len() >= a.len() {
        return qr;
    }
    let len0 = rec.len();
    let qlen0 = qs.len();
    let ghost mid = rec@;
    let ghost qmid = qs@;
    let s = hgcd_quotients(&s_a, &s_b, rec, qs);
    let out = matmul(&s, &qr);
    if !mat_fits(&out) {
        rec.truncate(len0);
        qs.truncate(qlen0);
        proof {
            assert(rec@ =~= mid);
            assert(qs@ =~= qmid);
        }
        return qr;
    }
    proof {
        assert(rec@.subrange(0, old(rec)@.len() as int) =~= old(rec)@) by {
            assert(mid.subrange(0, old(rec)@.len() as int) =~= old(rec)@);
        }
        let l2 = polys_view(qs@.subrange(qlen0 as int, qs@.len() as int));
        lemma_view_split(qs@, q0 as int, qlen0 as int, qs@.len() as int);
        assert(polys_view(qs@.subrange(q0 as int, qlen0 as int)) == l1q) by {
            assert(qs@.subrange(q0 as int, qlen0 as int) =~= qmid.subrange(q0 as int, qlen0 as int));
        }
        lemma_qprod_concat(l1q, l2);
        lemma_prefix_trans(qs@, qmid, old(qs)@);
        assert forall|i: int| q0 <= i < qs@.len() implies canon(#[trigger] qs@[i]@) by {
            if i < qlen0 {
                assert(qs@.subrange(0, qlen0 as int)[i] == qmid[i]);
            }
        }
    }
    out
}

// ---------------------------------------------------------------------------
// The fast resultant
// ---------------------------------------------------------------------------

/// Folds one recorded step into the running resultant: with the current
/// dividend and divisor degrees `(da, db)`, the remainder has degree
/// `db - rdrop`; the sign and `lc^(da - dr)` are applied and the degrees
/// advance to `(db, dr)`. Returns false, changing nothing, when the record
/// says the remainder vanished.
pub fn apply_step(res: &mut u32, da: &mut i64, db: &mut i64, st: StepRec) -> (ok: bool)
    requires
        *old(res) < P,
        0 <= *old(db) <= *old(da) <= 8388608,
        st.rdrop >= 1,
        st.lc < P,
    ensures
        ok == (*old(db) - st.rdrop >= 0),
        ok ==> *final(da) == *old(db) && *final(db) == *old(db) - st.rdrop,
        ok ==> *final(res) as int == (signed(*old(da) as int, *old(db) as int, *old(res) as int)
            * (pow(st.lc as int, (*old(da) - *final(db)) as nat) % modulus())) % modulus(),
        !ok ==> *final(res) == *old(res) && *final(da) == *old(da) && *final(db) == *old(db),
        *final(res) < P,
{
    let dr = *db - st.rdrop;
    if dr < 0 {
        return false;
    }
    let x: i64 = *da;
    let y: i64 = *db;
    proof {
        assert(x * y <= 8388608 * 8388608) by (nonlinear_arith)
            requires
                0 <= y <= 8388608,
                0 <= x <= 8388608;
        lemma_small_mod(*old(res) as nat, P as nat);
    }
    if (x * y) % 2 == 1 {
        *res = fsub(0, *res);
    }
    let w = fpow_small_exp(st.lc, *da - dr);
    *res = fmul(*res, w);
    *da = *db;
    *db = dr;
    true
}

/// One explicit Euclidean step on canonical `(a, b)` with `deg b >= 1`,
/// folding its factor into `res`; `None` when the remainder vanishes.
fn euclid_step(a: pl::Poly, b: pl::Poly, res: u32, Ghost(target): Ghost<int>, Ghost(exact): Ghost<bool>) -> (out: Option<(pl::Poly, pl::Poly, u32)>)
    requires
        canon(a@),
        canon(b@),
        2 <= b.len() <= a.len() <= 8388608,
        res < P,
        exact ==> target == (res as int * res_seq(a@, b@)) % modulus(),
    ensures
        out is None ==> (exact ==> target == 0),
        out matches Some((a2, b2, res2)) ==> {
            &&& a2@ == b@
            &&& canon(b2@)
            &&& 1 <= b2.len() < b.len()
            &&& res2 < P
            &&& (exact ==> target == (res2 as int * res_seq(a2@, b2@)) % modulus())
        },
{
    let da = pl::deg(&a);
    let db = pl::deg(&b);
    let lc_b = b[b.len() - 1];
    let ghost av = a@;
    proof {
        lemma_trim_canon(b@);
        lemma_trim_canon(a@);
    }
    let r = pl::rem(&a, &b);
    proof {
        lemma_has_rem_facts(av, b@, r@);
    }
    if r.len() == 0 {
        proof {
            let z = res_seq(av, b@);
            assert(z == 0);
            assert(res as int * z == 0) by (nonlinear_arith)
                requires
                    z == 0;
            lemma_small_mod(0nat, P as nat);
        }
        return None;
    }
    let dr = pl::deg(&r);
    let ghost acc = res as int;
    proof {
        assert(da * db <= 8388608 * 8388608) by (nonlinear_arith)
            requires
                0 <= da <= 8388608,
                0 <= db <= 8388608;
    }
    let mut res = res;
    if (da * db) % 2 == 1 {
        res = fsub(0, res);
    }
    let w = fpow_small_exp(lc_b, da - dr);
    proof {
        assert(res as int == signed(da as int, db as int, acc)) by {
            lemma_small_mod(acc as nat, P as nat);
        }
        assert(lead(b@) == lc_b);
        lemma_res_step(acc, pow(lc_b as int, (da - dr) as nat), res_seq(b@, r@), da as int, db as int);
        assert((av.len() - r.len()) as nat == (da - dr) as nat);
    }
    res = fmul(res, w);
    Some((b, r, res))
}

/// Every polynomial of the list has positive degree.
fn all_long(qs: &Vec<pl::Poly>) -> (r: bool)
    ensures
        r == (forall|i: int| 0 <= i < qs@.len() ==> #[trigger] qs@[i]@.len() >= 2),
{
    let mut i: usize = 0;
    while i < qs.len()
        invariant
            i <= qs.len(),
            forall|j: int| 0 <= j < i ==> #[trigger] qs@[j]@.len() >= 2,
        decreases qs.len() - i,
    {
        if qs[i].len() < 2 {
            return false;
        }
        i += 1;
    }
    true
}

/// `ly / lq` in F_p when `ly == lq lz`.
proof fn lemma_lead_quotient(ly: int, lq: int, lz: int, iv: int)
    requires
        0 <= lz < modulus(),
        (lq * iv) % modulus() == 1,
        eqm(ly, lq * lz),
    ensures
        (ly * iv) % modulus() == lz,
{
    let p = modulus();
    lemma_mul_mod_noop_left(ly, iv, p);
    lemma_mul_mod_noop_left(lq * lz, iv, p);
    assert((lq * lz) * iv == lz * (lq * iv)) by (nonlinear_arith);
    lemma_mul_mod_noop_right(lz, lq * iv, p);
    lemma_mul_basics(lz);
    lemma_small_mod(lz as nat, p as nat);
}

/// One half-GCD pass on canonical `(a, b)` with `deg a > deg b >= 1`: the
/// pass's quotients take `(a, b)` to a new pair, and the sign and
/// leading-coefficient factor of each division is folded into `res`, the
/// degrees and leading coefficients of the intermediate remainders being
/// read off the quotients. `None` when the pass is not a run of Euclidean
/// divisions that it can certify: a quotient of degree zero, or a last pair
/// whose degrees do not fall.
fn half_gcd_pass(a: &pl::Poly, b: &pl::Poly, res: u32, Ghost(target): Ghost<int>) -> (out: Option<(pl::Poly, pl::Poly, u32)>)
    requires
        canon(a@),
        canon(b@),
        2 <= b.len() < a.len() <= 8388608,
        res < P,
        target == (res as int * res_seq(a@, b@)) % modulus(),
    ensures
        out matches Some((a2, b2, res2)) ==> {
            &&& canon(a2@)
            &&& canon(b2@)
            &&& 1 <= b2.len() < a2.len() <= a.len()
            &&& b2.len() <= b.len()
            &&& res2 < P
            &&& target == (res2 as int * res_seq(a2@, b2@)) % modulus()
        },
{
    let mut rec: Vec<StepRec> = Vec::new();
    let mut qs: Vec<pl::Poly> = Vec::new();
    let mm = hgcd_quotients(a, b, &mut rec, &mut qs);
    let (aa, bb) = matvec(&mm, a, b);
    let ghost qv = polys_view(qs@);
    proof {
        assert(qs@.subrange(0, qs@.len() as int) =~= qs@);
        lemma_qprod_chain(a@, b@, qv);
    }
    if bb.len() == 0 || bb.len() >= aa.len() || !all_long(&qs) {
        return None;
    }
    let k = qs.len();
    let mut t: usize = 0;
    let mut lcb: u32 = b[b.len() - 1];
    let mut res = res;
    let mut da: i64 = (a.len() - 1) as i64;
    let mut db: i64 = (b.len() - 1) as i64;
    proof {
        assert(qv.take(0) =~= Seq::<Seq<u32>>::empty());
        assert forall|i: int| 0 <= i < k implies canon(#[trigger] qv[i]) && qv[i].len() >= 2 by {
            assert(qv[i] == qs@[i]@);
        }
    }
    while t < k
        invariant
            canon(a@),
            canon(b@),
            2 <= b.len() < a.len() <= 8388608,
            k == qs.len(),
            t <= k,
            qv == polys_view(qs@),
            forall|i: int| 0 <= i < k ==> canon(#[trigger] qv[i]) && qv[i].len() >= 2,
            chain(a@, b@, qv) == (aa@, bb@),
            1 <= bb.len() < aa.len(),
            da == chain(a@, b@, qv.take(t as int)).0.len() - 1,
            db == chain(a@, b@, qv.take(t as int)).1.len() - 1,
            0 <= db,
            da <= a.len() - 1,
            db <= b.len() - 1,
            db < da,
            lcb as int == lead(chain(a@, b@, qv.take(t as int)).1),
            res < P,
            target == (res as int * res_seq(chain(a@, b@, qv.take(t as int)).0, chain(a@, b@, qv.take(t as int)).1))
                % modulus(),
        decreases k - t,
    {
        let ghost x = chain(a@, b@, qv.take(t as int)).0;
        let ghost y = chain(a@, b@, qv.take(t as int)).1;
        let ghost z = chain(a@, b@, qv.take(t as int + 1)).1;
        proof {
            lemma_chain_step(a@, b@, qv, t as int);
            if t + 1 < k {
                lemma_chain_step(a@, b@, qv, t as int + 1);
                assert(qv.take(t as int + 1).len() == t + 1);
            } else {
                assert(qv.take(t as int + 1) =~= qv);
            }
        }
        let dr: i64 = if t + 1 < k {
            db - ((qs[t + 1].len() as i64) - 1)
        } else {
            (bb.len() as i64) - 1
        };
        proof {
            assert(qv[t as int + 1 - 1] == qv[t as int]);
            if t + 1 < k {
                assert(qs@[t as int + 1]@ == qv[t as int + 1]);
            }
            assert(dr == z.len() - 1);
            assert(1 <= z.len() < y.len());
            crate::poly_spec::lemma_divmod_is_spec(x, y, qv[t as int], z);
            lemma_res_step(res as int, pow(lcb as int, (da - dr) as nat), res_seq(y, z), da as int, db as int);
            assert(res_seq(x, y) == (signed(x.len() - 1, y.len() - 1, pow(lead(y), (x.len() - z.len()) as nat)) * res_seq(y, z))
                % modulus());
            assert((x.len() - z.len()) as nat == (da - dr) as nat);
        }
        let st = StepRec { rdrop: db - dr, lc: lcb };
        let ok = apply_step(&mut res, &mut da, &mut db, st);
        if !ok {
            return None;
        }
        if t + 1 < k {
            let lq = qs[t + 1][qs[t + 1].len() - 1];
            let iv = crate::poly::finv(lq);
            proof {
                let q1 = qv[t as int + 1];
                assert(qs@[t as int + 1]@ == q1);
                assert(lq == q1.last());
                assert(lead(q1) == lq);
                lemma_small_mod(lq as nat, P as nat);
                lemma_lead_quotient(lead(y), lq as int, lead(z), iv as int);
            }
            lcb = fmul(lcb, iv);
        } else {
            lcb = bb[bb.len() - 1];
        }
        t += 1;
    }
    proof {
        assert(qv.take(k as int) =~= qv);
    }
    Some((aa, bb, res))
}

/// The resultant driven by the half-GCD: each half-GCD pass hands out the
/// quotients of its divisions, and the sign and leading-coefficient factor of
/// every division is folded in from the running degrees and leading
/// coefficients, which the quotients determine; pairs below degree
/// `SMALL_DEGREE`, and pairs of equal degree, take explicit divisions. A pass
/// that is not a run of Euclidean divisions (a quotient of degree zero, or a
/// last pair whose degrees do not fall) sends the whole computation to
/// `resultant_eea`.
pub fn resultant_fast(a_in: &[u32], b_in: &[u32]) -> (r: u32)
    requires
        reduced(a_in@),
        reduced(b_in@),
        a_in.len() <= 8388608,
        b_in.len() <= 8388608,
    ensures
        r < P,
        r as int == res_spec(a_in@, b_in@),
{
    let mut a = pl::trim(a_in);
    let mut b = pl::trim(b_in);
    proof {
        lemma_trim(a_in@);
        lemma_trim(b_in@);
        lemma_trim_canon(a@);
        lemma_trim_canon(b@);
    }
    if a.len() == 0 || b.len() == 0 {
        return 0;
    }
    let mut res: u32 = 1;
    if pl::deg(&a) < pl::deg(&b) {
        let t = a;
        a = b;
        b = t;
        if (pl::deg(&a) % 2 == 1) && (pl::deg(&b) % 2 == 1) {
            res = fsub(0, res);
        }
        proof {
            let da = a.len() - 1;
            let db = b.len() - 1;
            lemma_parity_product(da, db);
            assert(((db * da) % 2 == 1) == ((da * db) % 2 == 1)) by (nonlinear_arith);
            lemma_small_mod(res_seq(a@, b@) as nat, P as nat);
            if (da * db) % 2 == 1 {
                lemma_mul_mod_noop_left(-1, res_seq(a@, b@), modulus());
                lemma_mod_add_multiples_vanish(-1, modulus());
            }
        }
    } else {
        proof {
            lemma_small_mod(res_seq(a@, b@) as nat, P as nat);
        }
    }
    let ghost target = res_spec(a_in@, b_in@);
    let mut da = pl::deg(&a);
    let mut db = pl::deg(&b);
    while db > 0 && da >= SMALL_DEGREE
        invariant
            canon(a@),
            canon(b@),
            1 <= b.len() <= a.len() <= 8388608,
            da == a.len() - 1,
            db == b.len() - 1,
            res < P,
            target == (res as int * res_seq(a@, b@)) % modulus(),
            target == res_spec(a_in@, b_in@),
            da < 8388608,
            reduced(a_in@),
            reduced(b_in@),
            a_in.len() <= 8388608,
            b_in.len() <= 8388608,
        decreases db,
    {
        if da == db {
            match euclid_step(a, b, res, Ghost(target), Ghost(true)) {
                Some((a2, b2, res2)) => {
                    a = a2;
                    b = b2;
                    res = res2;
                    da = db;
                    db = pl::deg(&b);
                },
                None => {
                    return 0;
                },
            }
        } else {
            match half_gcd_pass(&a, &b, res, Ghost(target)) {
                Some((a2, b2, res2)) => {
                    a = a2;
                    b = b2;
                    res = res2;
                    da = pl::deg(&a);
                    db = pl::deg(&b);
                },
                None => {
                    return resultant_eea(a_in, b_in);
                },
            }
            if db > 0 {
                match euclid_step(a, b, res, Ghost(target), Ghost(true)) {
                    Some((a3, b3, res3)) => {
                        a = a3;
                        b = b3;
                        res = res3;
                        da = db;
                        db = pl::deg(&b);
                    },
                    None => {
                        return 0;
                    },
                }
            }
        }
    }
    while db > 0
        invariant
            canon(a@),
            canon(b@),
            1 <= b.len() <= a.len() <= 8388608,
            da == a.len() - 1,
            db == b.len() - 1,
            res < P,
            target == (res as int * res_seq(a@, b@)) % modulus(),
            target == res_spec(a_in@, b_in@),
        decreases db,
    {
        match euclid_step(a, b, res, Ghost(target), Ghost(true)) {
            Some((a2, b2, res2)) => {
                a = a2;
                b = b2;
                res = res2;
                da = db;
                db = pl::deg(&b);
            },
            None => {
                return 0;
            },
        }
    }
    let w = fpow(b[0] as u64, da as u64);
    proof {
        assert(coef(b@, 0) == b[0]);
    }
    fmul(res, w)
}

/// `a` scaled to leading coefficient one (zero stays zero).
pub fn monic_poly(a_in: &[u32]) -> (r: pl::Poly)
    requires
        reduced(a_in@),
    ensures
        r@ == crate::poly_spec::monic(trim_spec(a_in@)),
        canon(r@),
        r.len() > 0 ==> r@.last() == 1,
{
    let a = pl::trim(a_in);
    proof {
        lemma_trim(a_in@);
    }
    if a.len() == 0 {
        return a;
    }
    let lead_c: u32 = a[a.len() - 1];
    let inv: u32 = crate::modinv(lead_c);
    proof {
        assert(a@.last() != 0);
        lemma_small_mod(lead_c as nat, P as nat);
    }
    let mut r: Vec<u32> = Vec::new();
    let mut i: usize = 0;
    while i < a.len()
        invariant
            i <= a.len(),
            r.len() == i,
            a@ == trim_spec(a_in@),
            reduced(a@),
            inv as int == crate::poly_spec::inv_spec(a@.last() as int),
            forall|k: int| 0 <= k < i ==> #[trigger] r@[k] == (((a@[k] as int) * inv_spec_of(a@)) % modulus()) as u32,
        decreases a.len() - i,
    {
        r.push(fmul(a[i], inv));
        i += 1;
    }
    proof {
        assert(r@ =~= crate::poly_spec::monic(a@));
        assert(r@.last() == 1);
    }
    r
}

/// The inverse of the leading coefficient.
pub open spec fn inv_spec_of(f: Seq<u32>) -> int {
    crate::poly_spec::inv_spec(f.last() as int)
}

/// One Euclidean division `(a, b) -> (b, a mod b)` on a pair kept as a
/// combination of `xs`, `ys`, with its cofactor matrix carried along;
/// `None` when the quotient or the new cofactors would be too long.
fn cofactor_div_step(a: pl::Poly, b: pl::Poly, c: &Mat, Ghost(xs): Ghost<Seq<u32>>, Ghost(ys): Ghost<Seq<u32>>) -> (out: Option<(pl::Poly, pl::Poly, Mat)>)
    requires
        canon(a@),
        canon(b@),
        1 <= b.len() <= a.len() <= 8388608,
        mat_ok(*c, MAT_BOUND as int),
        a@ == lin(c@[0]@, c@[1]@, xs, ys),
        b@ == lin(c@[2]@, c@[3]@, xs, ys),
    ensures
        out matches Some((a2, b2, c2)) ==> {
            &&& a2@ == b@
            &&& canon(b2@)
            &&& b2.len() < b.len()
            &&& mat_ok(c2, MAT_BOUND as int)
            &&& a2@ == lin(c2@[0]@, c2@[1]@, xs, ys)
            &&& b2@ == lin(c2@[2]@, c2@[3]@, xs, ys)
        },
{
    proof {
        lemma_trim_canon(a@);
        lemma_trim_canon(b@);
    }
    let (q, r) = pl::divmod(&a, &b);
    if q.len() > MAT_BOUND {
        return None;
    }
    let nq = neg(&q);
    let mut one_a: Vec<u32> = Vec::new();
    one_a.push(1);
    let mut one_b: Vec<u32> = Vec::new();
    one_b.push(1);
    let qmat: Mat = [Vec::new(), one_a, one_b, nq];
    proof {
        assert(qmat@[0]@ =~= Seq::<u32>::empty());
        assert(qmat@[1]@ =~= seq![1u32]);
        assert(qmat@[2]@ =~= seq![1u32]);
        assert(mat_ok(qmat, MAT_BOUND as int));
    }
    let c2 = matmul(&qmat, c);
    if !mat_fits(&c2) {
        return None;
    }
    proof {
        lemma_divmod_step(a@, b@, q@, r@);
        lemma_lin_compose(qmat@[0]@, qmat@[1]@, c@[0]@, c@[1]@, c@[2]@, c@[3]@, xs, ys);
        lemma_lin_compose(qmat@[2]@, qmat@[3]@, c@[0]@, c@[1]@, c@[2]@, c@[3]@, xs, ys);
    }
    Some((b, r, c2))
}

/// The monic gcd; long inputs are first shortened by half-GCD passes. The
/// working pair is kept, through its cofactor matrix, as a combination of
/// the inputs, so that every common divisor of the inputs divides the last
/// nonzero remainder; that remainder is accepted once it divides both
/// inputs. Where a size bound or that check fails, the plain Euclidean gcd
/// is computed instead.
pub fn gcd_fast(a_in: &[u32], b_in: &[u32]) -> (g: pl::Poly)
    requires
        reduced(a_in@),
        reduced(b_in@),
        a_in.len() <= 8388608,
        b_in.len() <= 8388608,
    ensures
        g@ == crate::poly_spec::gcd_spec(a_in@, b_in@),
{
    if pl::deg(a_in) < SMALL_DEGREE && pl::deg(b_in) < SMALL_DEGREE {
        return pl::gcd(a_in, b_in);
    }
    let ghost xs = trim_spec(a_in@);
    let ghost ys = trim_spec(b_in@);
    let mut a = pl::trim(a_in);
    let mut b = pl::trim(b_in);
    proof {
        lemma_trim(a_in@);
        lemma_trim(b_in@);
        lemma_trim_canon(a@);
        lemma_trim_canon(b@);
    }
    let mut c: Mat = ident();
    proof {
        assert(c@[1]@ =~= Seq::<u32>::empty());
        assert(c@[2]@ =~= Seq::<u32>::empty());
        lemma_mul_one_left(xs);
        lemma_mul_one_left(ys);
        crate::poly_ring::lemma_add_empty_right(xs);
        lemma_add_empty_left(ys);
        assert(mul_spec(Seq::<u32>::empty(), ys) == Seq::<u32>::empty());
        assert(mul_spec(Seq::<u32>::empty(), xs) == Seq::<u32>::empty());
    }
    if a.len() < b.len() {
        let t = a;
        a = b;
        b = t;
        let mut one_a: Vec<u32> = Vec::new();
        one_a.push(1);
        let mut one_b: Vec<u32> = Vec::new();
        one_b.push(1);
        c = [Vec::new(), one_a, one_b, Vec::new()];
        proof {
            assert(c@[0]@ =~= Seq::<u32>::empty());
            assert(c@[1]@ =~= seq![1u32]);
            assert(c@[2]@ =~= seq![1u32]);
            assert(c@[3]@ =~= Seq::<u32>::empty());
        }
    }
    while b.len() > 0
        invariant
            canon(a@),
            canon(b@),
            b.len() <= a.len() <= 8388608,
            mat_ok(c, MAT_BOUND as int),
            a@ == lin(c@[0]@, c@[1]@, xs, ys),
            b@ == lin(c@[2]@, c@[3]@, xs, ys),
            reduced(a_in@),
            reduced(b_in@),
            xs == trim_spec(a_in@),
            ys == trim_spec(b_in@),
        decreases b.len(),
    {
        if a.len() == b.len() || (a.len() as i64) - 1 < SMALL_DEGREE {
            match cofactor_div_step(a, b, &c, Ghost(xs), Ghost(ys)) {
                Some((a2, b2, c2)) => {
                    a = a2;
                    b = b2;
                    c = c2;
                },
                None => {
                    return pl::gcd(a_in, b_in);
                },
            }
        } else {
            let mut scratch: Vec<StepRec> = Vec::new();
            let mm = hgcd(&a, &b, &mut scratch);
            let (aa, bb) = matvec(&mm, &a, &b);
            let cm = matmul(&mm, &c);
            if !mat_fits(&cm) {
                return pl::gcd(a_in, b_in);
            }
            let a2 = pl::trim(&aa);
            let b2 = pl::trim(&bb);
            proof {
                lemma_trim_canon(aa@);
                lemma_trim_canon(bb@);
                lemma_lin_compose(mm@[0]@, mm@[1]@, c@[0]@, c@[1]@, c@[2]@, c@[3]@, xs, ys);
                lemma_lin_compose(mm@[2]@, mm@[3]@, c@[0]@, c@[1]@, c@[2]@, c@[3]@, xs, ys);
            }
            if !(b2.len() <= b.len() && a2.len() <= a.len() && b2.len() <= a2.len()) {
                return pl::gcd(a_in, b_in);
            }
            if b2.len() == 0 {
                a = a2;
                b = b2;
                c = cm;
            } else {
                match cofactor_div_step(a2, b2, &cm, Ghost(xs), Ghost(ys)) {
                    Some((a3, b3, c3)) => {
                        a = a3;
                        b = b3;
                        c = c3;
                    },
                    None => {
                        return pl::gcd(a_in, b_in);
                    },
                }
            }
        }
    }
    if a.len() == 0 {
        return pl::gcd(a_in, b_in);
    }
    proof {
        lemma_trim_canon(a@);
    }
    let ra = pl::rem(a_in, &a);
    let rb = pl::rem(b_in, &a);
    if ra.len() != 0 || rb.len() != 0 {
        return pl::gcd(a_in, b_in);
    }
    let g = monic_poly(&a);
    proof {
        let gs = crate::poly_spec::gcd_spec(a_in@, b_in@);
        lemma_gcd_spec_char(a_in@, b_in@);
        let qa = choose|q: Seq<u32>| #[trigger] crate::poly_spec::is_divmod(a_in@, a@, q, ra@);
        assert(crate::poly_spec::is_divmod(a_in@, a@, qa, ra@));
        assert(ra@ =~= Seq::<u32>::empty());
        crate::poly_divides::lemma_exact_quotient_divides(a_in@, a@, qa);
        let qb = choose|q: Seq<u32>| #[trigger] crate::poly_spec::is_divmod(b_in@, a@, q, rb@);
        assert(crate::poly_spec::is_divmod(b_in@, a@, qb, rb@));
        assert(rb@ =~= Seq::<u32>::empty());
        crate::poly_divides::lemma_exact_quotient_divides(b_in@, a@, qb);
        crate::poly_spec::lemma_monic_canon(a@);
        let ma = crate::poly_spec::monic(a@);
        assert(g@ == ma);
        crate::poly_divides::lemma_divides_monic(a@, a_in@);
        crate::poly_divides::lemma_divides_monic(a@, b_in@);
        assert(divides(ma, gs));
        assert forall|i: int| #[trigger] crate::poly_ring::eqm(coef(a_in@, i), coef(xs, i)) by {}
        assert forall|i: int| #[trigger] crate::poly_ring::eqm(coef(b_in@, i), coef(ys, i)) by {}
        assert forall|i: int| #[trigger] coef(gs, i) == coef(gs, i) by {}
        crate::poly_divides::lemma_divides_coefs(gs, gs, a_in@, xs);
        crate::poly_divides::lemma_divides_coefs(gs, gs, b_in@, ys);
        lemma_divides_lin(gs, c@[0]@, c@[1]@, xs, ys);
        crate::poly_divides::lemma_divides_into_monic(gs, a@);
        assert(gs.len() > 0) by {
            if gs.len() == 0 {
                assert(trim_spec(a_in@).len() == 0 && trim_spec(b_in@).len() == 0);
                assert(degree(a_in@) == -1 && degree(b_in@) == -1);
            }
        }
        lemma_monic_divisor_unique(ma, gs);
    }
    g
}

} // verus!
