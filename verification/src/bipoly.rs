//! Bivariate polynomial arithmetic in F_p[X][Y].
//!
//! A `BiPoly` represents `f(X, Y) = sum_i f_i(X) * Y^i`, stored as a vector
//! indexed by the Y-degree `i` whose entry `i` is the univariate polynomial
//! `f_i(X)` (low degree first). The zero bivariate polynomial is the empty
//! vector. All arithmetic on the X-coefficients goes through `crate::poly`.
use vstd::arithmetic::div_mod::*;
use vstd::prelude::*;

use crate::field::modulus;
use crate::poly as pl;
use crate::poly_ring::{lemma_add_empty_right, lemma_mul_spec_len};
use crate::poly_spec::{
    add_coefs, add_spec, canon, degree, from_fn, lemma_ops_canon, lemma_trim, lemma_trim_canon,
    max_len, mul_spec, peval, reduced, scalar_spec, sub_spec, trim_spec,
};
use crate::P;

verus! {

/// `f(X, Y) = sum_i coeff[i](X) * Y^i`.
pub type BiPoly = Vec<pl::Poly>;

/// The views of the Y-coefficients.
pub open spec fn bi_view(f: Seq<Vec<u32>>) -> Seq<Seq<u32>> {
    f.map_values(|c: Vec<u32>| c@)
}

/// Trailing zero Y-coefficients dropped.
pub open spec fn bi_trim(f: Seq<Seq<u32>>) -> Seq<Seq<u32>>
    decreases f.len(),
{
    if f.len() > 0 && f.last().len() == 0 {
        bi_trim(f.drop_last())
    } else {
        f
    }
}

/// Y-coefficient `i` (zero outside the stored range).
pub open spec fn bi_coef(f: Seq<Seq<u32>>, i: int) -> Seq<u32> {
    if 0 <= i < f.len() {
        f[i]
    } else {
        Seq::empty()
    }
}

/// Every Y-coefficient reduced.
pub open spec fn bi_reduced(f: Seq<Seq<u32>>) -> bool {
    forall|i: int| 0 <= i < f.len() ==> reduced(#[trigger] f[i])
}

/// Every Y-coefficient reduced and at most `bound` long.
pub open spec fn bi_within(f: Seq<Seq<u32>>, bound: int) -> bool {
    forall|i: int| 0 <= i < f.len() ==> reduced(#[trigger] f[i]) && f[i].len() <= bound
}

/// Every Y-coefficient canonical.
pub open spec fn bi_canon(f: Seq<Seq<u32>>) -> bool {
    forall|i: int| 0 <= i < f.len() ==> canon(#[trigger] f[i])
}

pub open spec fn bi_add_spec(a: Seq<Seq<u32>>, b: Seq<Seq<u32>>) -> Seq<Seq<u32>> {
    let n = if a.len() >= b.len() { a.len() } else { b.len() };
    bi_trim(Seq::new(n, |i: int| add_spec(bi_coef(a, i), bi_coef(b, i))))
}

pub open spec fn bi_sub_spec(a: Seq<Seq<u32>>, b: Seq<Seq<u32>>) -> Seq<Seq<u32>> {
    let n = if a.len() >= b.len() { a.len() } else { b.len() };
    bi_trim(Seq::new(n, |i: int| sub_spec(bi_coef(a, i), bi_coef(b, i))))
}

pub open spec fn bi_scalar_spec(a: Seq<Seq<u32>>, c: u32) -> Seq<Seq<u32>> {
    if c % P == 0 {
        Seq::empty()
    } else {
        bi_trim(Seq::new(a.len(), |i: int| scalar_spec(a[i], (c % P) as int)))
    }
}

/// `sum_{i < n} a_i * b_{k - i}`, accumulated with increasing `i`.
pub open spec fn bi_conv(a: Seq<Seq<u32>>, b: Seq<Seq<u32>>, k: int, n: int) -> Seq<u32>
    decreases n,
{
    if n <= 0 {
        Seq::empty()
    } else {
        add_spec(bi_conv(a, b, k, n - 1), mul_spec(a[n - 1], bi_coef(b, k - (n - 1))))
    }
}

pub open spec fn bi_mul_spec(a: Seq<Seq<u32>>, b: Seq<Seq<u32>>) -> Seq<Seq<u32>> {
    let ta = bi_trim(a);
    let tb = bi_trim(b);
    if ta.len() == 0 || tb.len() == 0 {
        Seq::empty()
    } else {
        bi_trim(Seq::new((ta.len() + tb.len() - 1) as nat, |k: int| bi_conv(ta, tb, k, ta.len() as int)))
    }
}

/// Horner in Y from index `i` up: `f_i + y (f_{i+1} + y (...))`.
pub open spec fn bi_eval_y(f: Seq<Seq<u32>>, y: u32, i: int) -> Seq<u32>
    decreases f.len() - i,
{
    if i >= f.len() {
        Seq::empty()
    } else {
        add_spec(scalar_spec(bi_eval_y(f, y, i + 1), y as int), f[i])
    }
}

/// Largest X-degree of the first `n` Y-coefficients, -1 when there is none.
pub open spec fn bi_deg_x(f: Seq<Seq<u32>>, n: int) -> int
    decreases n,
{
    if n <= 0 {
        -1
    } else {
        let d = degree(f[n - 1]);
        let rest = bi_deg_x(f, n - 1);
        if d > rest {
            d
        } else {
            rest
        }
    }
}

pub(crate) proof fn lemma_bi_trim_facts(f: Seq<Seq<u32>>)
    ensures
        bi_trim(f).len() <= f.len(),
        bi_trim(f) == f.subrange(0, bi_trim(f).len() as int),
        bi_trim(f).len() > 0 ==> bi_trim(f).last().len() > 0,
        forall|i: int| bi_trim(f).len() <= i < f.len() ==> #[trigger] f[i].len() == 0,
    decreases f.len(),
{
    if f.len() > 0 && f.last().len() == 0 {
        lemma_bi_trim_facts(f.drop_last());
        assert(f.drop_last().subrange(0, bi_trim(f).len() as int) =~= f.subrange(0, bi_trim(f).len() as int));
        assert forall|i: int| bi_trim(f).len() <= i < f.len() implies #[trigger] f[i].len() == 0 by {
            if i < f.len() - 1 {
                assert(f.drop_last()[i] == f[i]);
            }
        }
    } else {
        assert(f.subrange(0, f.len() as int) =~= f);
    }
}

/// A copy of the Y-coefficients.
pub(crate) fn copy_bi(f: &[pl::Poly]) -> (v: BiPoly)
    ensures
        bi_view(v@) == bi_view(f@),
{
    let mut v: BiPoly = Vec::new();
    let mut i: usize = 0;
    while i < f.len()
        invariant
            i <= f.len(),
            v.len() == i,
            forall|k: int| 0 <= k < i ==> #[trigger] v@[k]@ == f@[k]@,
        decreases f.len() - i,
    {
        let c = f[i].clone();
        assert(c@ =~= f@[i as int]@);
        v.push(c);
        i += 1;
    }
    assert(bi_view(v@) =~= bi_view(f@));
    v
}

/// Drop trailing zero (empty) Y-coefficients.
pub fn trim(f: &[pl::Poly]) -> (r: BiPoly)
    ensures
        bi_view(r@) == bi_trim(bi_view(f@)),
{
    let mut v = copy_bi(f);
    let ghost g = bi_view(f@);
    assert(g.subrange(0, v.len() as int) =~= g);
    while v.len() > 0 && v[v.len() - 1].len() == 0
        invariant
            v.len() <= g.len(),
            g == bi_view(f@),
            bi_view(v@) == g.subrange(0, v.len() as int),
            bi_trim(g) == bi_trim(bi_view(v@)),
        decreases v.len(),
    {
        let ghost before = bi_view(v@);
        v.pop();
        assert(bi_view(v@) =~= before.drop_last());
    }
    v
}

/// Y-degree; the zero polynomial has degree -1.
pub fn deg_y(f: &[pl::Poly]) -> (d: i64)
    requires
        f.len() < i64::MAX,
    ensures
        d == bi_trim(bi_view(f@)).len() - 1,
{
    let mut n = f.len();
    let ghost g = bi_view(f@);
    assert(g.subrange(0, n as int) =~= g);
    while n > 0 && f[n - 1].len() == 0
        invariant
            n <= f.len() < i64::MAX,
            g == bi_view(f@),
            bi_trim(g.subrange(0, n as int)) == bi_trim(g),
        decreases n,
    {
        assert(g.subrange(0, n as int).drop_last() =~= g.subrange(0, n - 1));
        n -= 1;
    }
    proof {
        assert(g.subrange(0, n as int).len() == n);
    }
    n as i64 - 1
}

/// Maximum X-degree across all Y-coefficients (-1 for the zero polynomial).
pub fn deg_x(f: &[pl::Poly]) -> (d: i64)
    requires
        forall|i: int| 0 <= i < f.len() ==> #[trigger] f@[i].len() < i64::MAX,
    ensures
        d == bi_deg_x(bi_view(f@), f.len() as int),
{
    let mut best: i64 = -1;
    let mut i: usize = 0;
    while i < f.len()
        invariant
            i <= f.len(),
            forall|k: int| 0 <= k < f.len() ==> #[trigger] f@[k].len() < i64::MAX,
            best == bi_deg_x(bi_view(f@), i as int),
        decreases f.len() - i,
    {
        assert(f@[i as int].len() < i64::MAX);
        let d = pl::deg(&f[i]);
        if d > best {
            best = d;
        }
        i += 1;
    }
    best
}

/// The constant-in-Y polynomial whose Y^0 coefficient is `c` (trimmed).
pub fn from_x_poly(c: &[u32]) -> (r: BiPoly)
    ensures
        trim_spec(c@).len() == 0 ==> r@.len() == 0,
        trim_spec(c@).len() > 0 ==> bi_view(r@) == seq![trim_spec(c@)],
{
    let c = pl::trim(c);
    let mut r: BiPoly = Vec::new();
    if c.len() > 0 {
        r.push(c);
        assert(bi_view(r@) =~= seq![c@]);
    }
    r
}

/// The bivariate polynomial that is the field constant `c`.
pub fn constant(c: u32) -> (r: BiPoly)
    ensures
        c % P == 0 ==> r@.len() == 0,
        c % P != 0 ==> bi_view(r@) == seq![seq![(c % P) as u32]],
{
    let mut v: Vec<u32> = Vec::new();
    v.push(c % P);
    proof {
        lemma_trim(v@);
        if c % P != 0 {
            assert(trim_spec(v@) == v@);
        } else {
            assert(trim_spec(v@).len() == 0);
        }
    }
    from_x_poly(&v)
}

/// The monomial X.
pub fn var_x() -> (r: BiPoly)
    ensures
        bi_view(r@) == seq![seq![0u32, 1u32]],
{
    let mut v: Vec<u32> = Vec::new();
    v.push(0);
    v.push(1);
    let t = pl::trim(&v);
    proof {
        assert(v@ =~= seq![0u32, 1u32]);
        assert(trim_spec(v@) == v@);
    }
    let mut r: BiPoly = Vec::new();
    r.push(t);
    assert(bi_view(r@) =~= seq![seq![0u32, 1u32]]);
    r
}

/// The monomial Y.
pub fn var_y() -> (r: BiPoly)
    ensures
        bi_view(r@) == seq![Seq::<u32>::empty(), seq![1u32]],
{
    let mut v: Vec<u32> = Vec::new();
    v.push(1);
    let t = pl::trim(&v);
    proof {
        assert(trim_spec(v@) == v@);
    }
    let mut r: BiPoly = Vec::new();
    r.push(Vec::new());
    r.push(t);
    assert(bi_view(r@) =~= seq![Seq::<u32>::empty(), seq![1u32]]);
    r
}

/// `a + b`, Y-coefficient by Y-coefficient.
pub fn add(a: &[pl::Poly], b: &[pl::Poly]) -> (r: BiPoly)
    requires
        bi_reduced(bi_view(a@)),
        bi_reduced(bi_view(b@)),
    ensures
        bi_view(r@) == bi_add_spec(bi_view(a@), bi_view(b@)),
{
    let n = if a.len() >= b.len() { a.len() } else { b.len() };
    let empty: pl::Poly = Vec::new();
    let ghost av = bi_view(a@);
    let ghost bv = bi_view(b@);
    let mut out: BiPoly = Vec::new();
    let mut i: usize = 0;
    while i < n
        invariant
            n == if a.len() >= b.len() { a.len() } else { b.len() },
            av == bi_view(a@),
            bv == bi_view(b@),
            bi_reduced(av),
            bi_reduced(bv),
            empty@.len() == 0,
            i <= n,
            out.len() == i,
            forall|k: int| 0 <= k < i ==> #[trigger] out@[k]@ == add_spec(bi_coef(av, k), bi_coef(bv, k)),
        decreases n - i,
    {
        let ai = if i < a.len() { &a[i] } else { &empty };
        let bi = if i < b.len() { &b[i] } else { &empty };
        proof {
            assert(ai@ == bi_coef(av, i as int));
            assert(bi@ == bi_coef(bv, i as int));
        }
        out.push(pl::add(ai, bi));
        i += 1;
    }
    assert(bi_view(out@) =~= Seq::new(n as nat, |k: int| add_spec(bi_coef(av, k), bi_coef(bv, k))));
    trim(&out)
}

/// `a - b`.
pub fn sub(a: &[pl::Poly], b: &[pl::Poly]) -> (r: BiPoly)
    requires
        bi_reduced(bi_view(a@)),
        bi_reduced(bi_view(b@)),
    ensures
        bi_view(r@) == bi_sub_spec(bi_view(a@), bi_view(b@)),
{
    let n = if a.len() >= b.len() { a.len() } else { b.len() };
    let empty: pl::Poly = Vec::new();
    let ghost av = bi_view(a@);
    let ghost bv = bi_view(b@);
    let mut out: BiPoly = Vec::new();
    let mut i: usize = 0;
    while i < n
        invariant
            n == if a.len() >= b.len() { a.len() } else { b.len() },
            av == bi_view(a@),
            bv == bi_view(b@),
            bi_reduced(av),
            bi_reduced(bv),
            empty@.len() == 0,
            i <= n,
            out.len() == i,
            forall|k: int| 0 <= k < i ==> #[trigger] out@[k]@ == sub_spec(bi_coef(av, k), bi_coef(bv, k)),
        decreases n - i,
    {
        let ai = if i < a.len() { &a[i] } else { &empty };
        let bi = if i < b.len() { &b[i] } else { &empty };
        proof {
            assert(ai@ == bi_coef(av, i as int));
            assert(bi@ == bi_coef(bv, i as int));
        }
        out.push(pl::sub(ai, bi));
        i += 1;
    }
    assert(bi_view(out@) =~= Seq::new(n as nat, |k: int| sub_spec(bi_coef(av, k), bi_coef(bv, k))));
    trim(&out)
}

/// `c * a` for a field scalar `c`.
pub fn scalar(a: &[pl::Poly], c: u32) -> (r: BiPoly)
    ensures
        bi_view(r@) == bi_scalar_spec(bi_view(a@), c),
{
    let c = c % P;
    if c == 0 {
        return Vec::new();
    }
    let ghost av = bi_view(a@);
    let mut out: BiPoly = Vec::new();
    let mut i: usize = 0;
    while i < a.len()
        invariant
            av == bi_view(a@),
            c < P,
            i <= a.len(),
            out.len() == i,
            forall|k: int| 0 <= k < i ==> #[trigger] out@[k]@ == scalar_spec(av[k], c as int),
        decreases a.len() - i,
    {
        out.push(pl::scalar(&a[i], c));
        i += 1;
    }
    proof {
        lemma_small_mod(c as nat, P as nat);
        assert(bi_view(out@) =~= Seq::new(a.len() as nat, |k: int| scalar_spec(av[k], c as int)));
    }
    trim(&out)
}

/// `a * b`: convolution in Y of products in F_p[X].
pub fn mul(a: &[pl::Poly], b: &[pl::Poly]) -> (r: BiPoly)
    requires
        bi_within(bi_view(a@), 8388608),
        bi_within(bi_view(b@), 8388608),
        a.len() + b.len() <= usize::MAX,
    ensures
        bi_view(r@) == bi_mul_spec(bi_view(a@), bi_view(b@)),
        r.len() <= a.len() + b.len(),
{
    let ghost a0 = bi_view(a@);
    let ghost b0 = bi_view(b@);
    let a = trim(a);
    let b = trim(b);
    let ghost av = bi_view(a@);
    let ghost bv = bi_view(b@);
    proof {
        lemma_bi_trim_facts(a0);
        lemma_bi_trim_facts(b0);
        assert forall|k: int| 0 <= k < av.len() implies reduced(#[trigger] av[k]) && av[k].len() <= 8388608 by {
            assert(av[k] == a0[k]);
        }
        assert forall|k: int| 0 <= k < bv.len() implies reduced(#[trigger] bv[k]) && bv[k].len() <= 8388608 by {
            assert(bv[k] == b0[k]);
        }
    }
    if a.len() == 0 || b.len() == 0 {
        return Vec::new();
    }
    let out_len = a.len() + b.len() - 1;
    let mut out: BiPoly = Vec::new();
    let mut k: usize = 0;
    while k < out_len
        invariant
            k <= out_len,
            out.len() == k,
            forall|t: int| 0 <= t < k ==> #[trigger] out@[t]@.len() == 0,
        decreases out_len - k,
    {
        out.push(Vec::new());
        k += 1;
    }
    let mut i: usize = 0;
    while i < a.len()
        invariant
            av == bi_view(a@),
            bv == bi_view(b@),
            a.len() > 0,
            b.len() > 0,
            out_len == a.len() + b.len() - 1,
            out.len() == out_len,
            i <= a.len(),
            bi_within(av, 8388608),
            bi_within(bv, 8388608),
            forall|t: int| 0 <= t < out_len ==> #[trigger] out@[t]@ == bi_conv(av, bv, t, i as int),
            forall|t: int| 0 <= t < out_len ==> canon(#[trigger] out@[t]@),
        decreases a.len() - i,
    {
        let mut j: usize = 0;
        while j < b.len()
            invariant
                av == bi_view(a@),
                bv == bi_view(b@),
                out_len == a.len() + b.len() - 1,
                out.len() == out_len,
                i < a.len(),
                j <= b.len(),
                bi_within(av, 8388608),
                bi_within(bv, 8388608),
                forall|t: int| 0 <= t < out_len && i <= t < i + j ==> #[trigger] out@[t]@ == bi_conv(av, bv, t, i + 1),
                forall|t: int| 0 <= t < out_len && !(i <= t < i + j) ==> #[trigger] out@[t]@ == bi_conv(av, bv, t, i as int),
                forall|t: int| 0 <= t < out_len ==> canon(#[trigger] out@[t]@),
            decreases b.len() - j,
        {
            let ghost t0 = (i + j) as int;
            proof {
                assert(reduced(av[i as int]) && av[i as int].len() <= 8388608);
                assert(reduced(bv[j as int]) && bv[j as int].len() <= 8388608);
                lemma_trim(av[i as int]);
                lemma_trim(bv[j as int]);
                assert(bi_coef(bv, t0 - i) == bv[j as int]);
            }
            if a[i].len() > 0 && b[j].len() > 0 {
                let prod = pl::mul(&a[i], &b[j]);
                proof {
                    lemma_ops_canon(av[i as int], bv[j as int], 0);
                }
                let s = pl::add(&out[i + j], &prod);
                proof {
                    lemma_ops_canon(out@[t0]@, prod@, 0);
                }
                out.set(i + j, s);
            } else {
                proof {
                    assert(mul_spec(av[i as int], bv[j as int]) =~= Seq::<u32>::empty());
                    lemma_add_empty_right(out@[t0]@);
                }
            }
            j += 1;
        }
        proof {
            assert forall|t: int| 0 <= t < out_len && !(i <= t < i + b.len()) implies #[trigger] out@[t]@ == bi_conv(av, bv, t, i + 1) by {
                assert(bi_coef(bv, t - i) =~= Seq::<u32>::empty());
                assert(mul_spec(av[i as int], bi_coef(bv, t - i)) =~= Seq::<u32>::empty());
                lemma_add_empty_right(out@[t]@);
            }
        }
        i += 1;
    }
    assert(bi_view(out@) =~= Seq::new((av.len() + bv.len() - 1) as nat, |t: int| bi_conv(av, bv, t, av.len() as int)));
    proof {
        lemma_bi_trim_facts(bi_view(out@));
    }
    trim(&out)
}

/// The S-box cube `f^3` in F_p[X][Y].
pub fn cube(f: &[pl::Poly]) -> (r: BiPoly)
    requires
        bi_within(bi_view(f@), 4194304),
        3 * f.len() <= usize::MAX,
    ensures
        bi_view(r@) == bi_mul_spec(bi_mul_spec(bi_view(f@), bi_view(f@)), bi_view(f@)),
{
    proof {
        lemma_bi_within_weaken(bi_view(f@), 4194304, 8388608);
    }
    let sq = self::mul(f, f);
    proof {
        lemma_bi_mul_within(bi_view(f@), bi_view(f@), 4194304);
    }
    self::mul(&sq, f)
}

pub(crate) proof fn lemma_bi_within_weaken(f: Seq<Seq<u32>>, b1: int, b2: int)
    requires
        bi_within(f, b1),
        b1 <= b2,
    ensures
        bi_within(f, b2),
{
}

/// Products of polynomials at most `b` long have coefficients at most `2b` long.
pub(crate) proof fn lemma_bi_mul_within(a: Seq<Seq<u32>>, c: Seq<Seq<u32>>, b: int)
    requires
        bi_within(a, b),
        bi_within(c, b),
        b >= 1,
    ensures
        bi_within(bi_mul_spec(a, c), 2 * b),
{
    let ta = bi_trim(a);
    let tc = bi_trim(c);
    lemma_bi_trim_facts(a);
    lemma_bi_trim_facts(c);
    if ta.len() > 0 && tc.len() > 0 {
        let full = Seq::new((ta.len() + tc.len() - 1) as nat, |k: int| bi_conv(ta, tc, k, ta.len() as int));
        assert forall|k: int| 0 <= k < full.len() implies reduced(#[trigger] full[k]) && full[k].len() <= 2 * b by {
            lemma_bi_conv_within(ta, tc, k, ta.len() as int, b);
        }
        lemma_bi_trim_facts(full);
        assert forall|k: int| 0 <= k < bi_trim(full).len() implies reduced(#[trigger] bi_trim(full)[k]) && bi_trim(full)[k].len() <= 2 * b by {
            assert(bi_trim(full)[k] == full[k]);
        }
    }
}

proof fn lemma_bi_conv_within(a: Seq<Seq<u32>>, c: Seq<Seq<u32>>, k: int, n: int, b: int)
    requires
        bi_within(a, b),
        bi_within(c, b),
        b >= 1,
        n <= a.len(),
    ensures
        canon(bi_conv(a, c, k, n)),
        bi_conv(a, c, k, n).len() <= 2 * b,
    decreases n,
{
    if n > 0 {
        lemma_bi_conv_within(a, c, k, n - 1, b);
        let x = a[n - 1];
        let y = bi_coef(c, k - (n - 1));
        lemma_mul_spec_len(x, y);
        lemma_ops_canon(bi_conv(a, c, k, n - 1), mul_spec(x, y), 0);
        lemma_trim(from_fn(max_len(bi_conv(a, c, k, n - 1), mul_spec(x, y)), add_coefs(bi_conv(a, c, k, n - 1), mul_spec(x, y))));
    }
}

/// `f(x, Y)`: each Y-coefficient evaluated at `X = x`.
pub fn eval_x(f: &[pl::Poly], x: u32) -> (r: pl::Poly)
    requires
        bi_reduced(bi_view(f@)),
    ensures
        r@ == trim_spec(Seq::new(f.len() as nat, |i: int| ((peval(f@[i]@, x as int) % modulus()) as u32))),
{
    let ghost fv = bi_view(f@);
    let mut ys: Vec<u32> = Vec::new();
    let mut i: usize = 0;
    while i < f.len()
        invariant
            fv == bi_view(f@),
            bi_reduced(fv),
            i <= f.len(),
            ys@ == Seq::new(f.len() as nat, |k: int| ((peval(f@[k]@, x as int) % modulus()) as u32)).subrange(0, i as int),
        decreases f.len() - i,
    {
        proof {
            assert(reduced(fv[i as int]));
        }
        let v = pl::eval(&f[i], x);
        ys.push(v);
        i += 1;
        assert(ys@ =~= Seq::new(f.len() as nat, |k: int| ((peval(f@[k]@, x as int) % modulus()) as u32)).subrange(0, i as int));
    }
    assert(Seq::new(f.len() as nat, |k: int| ((peval(f@[k]@, x as int) % modulus()) as u32)).subrange(0, f.len() as int)
        =~= Seq::new(f.len() as nat, |k: int| ((peval(f@[k]@, x as int) % modulus()) as u32)));
    pl::trim(&ys)
}

/// `f(X, y)`: Horner in Y over F_p[X] coefficients.
pub fn eval_y(f: &[pl::Poly], y: u32) -> (r: pl::Poly)
    requires
        bi_reduced(bi_view(f@)),
    ensures
        r@ == bi_eval_y(bi_view(f@), y, 0),
{
    let ghost fv = bi_view(f@);
    let mut acc: pl::Poly = Vec::new();
    let mut i: usize = f.len();
    while i > 0
        invariant
            fv == bi_view(f@),
            bi_reduced(fv),
            i <= f.len(),
            acc@ == bi_eval_y(fv, y, i as int),
            canon(acc@),
        decreases i,
    {
        proof {
            assert(reduced(fv[i - 1]));
        }
        let sc = pl::scalar(&acc, y);
        proof {
            lemma_ops_canon(acc@, acc@, y as int);
        }
        let next = pl::add(&sc, &f[i - 1]);
        proof {
            lemma_ops_canon(sc@, fv[i - 1], 0);
        }
        acc = next;
        i -= 1;
    }
    proof {
        lemma_trim_canon(acc@);
    }
    pl::trim(&acc)
}

} // verus!
