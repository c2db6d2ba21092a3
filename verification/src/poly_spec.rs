//! The mathematical model of univariate polynomials over F_p: a coefficient
//! sequence, low degree first, read with zeros beyond its end.
use vstd::arithmetic::div_mod::*;
use vstd::arithmetic::mul::*;
use vstd::arithmetic::power::*;
use vstd::prelude::*;

use crate::field::modulus;
use crate::P;

verus! {

/// Coefficient `i` of `f` (zero outside the stored range).
pub open spec fn coef(f: Seq<u32>, i: int) -> int {
    if 0 <= i < f.len() {
        f[i] as int
    } else {
        0
    }
}

/// Every stored coefficient is a canonical field element.
pub open spec fn reduced(f: Seq<u32>) -> bool {
    forall|i: int| 0 <= i < f.len() ==> #[trigger] f[i] < P
}

/// No trailing zero coefficient (the zero polynomial is the empty sequence).
pub open spec fn trimmed(f: Seq<u32>) -> bool {
    f.len() == 0 || f.last() != 0
}

/// A canonical polynomial: reduced and trimmed.
pub open spec fn canon(f: Seq<u32>) -> bool {
    reduced(f) && trimmed(f)
}

/// `f` with its trailing zero coefficients removed.
pub open spec fn trim_spec(f: Seq<u32>) -> Seq<u32>
    decreases f.len(),
{
    if f.len() > 0 && f.last() == 0 {
        trim_spec(f.drop_last())
    } else {
        f
    }
}

/// Degree, with -1 for the zero polynomial.
pub open spec fn degree(f: Seq<u32>) -> int {
    trim_spec(f).len() - 1
}

/// The sequence of length `n` whose coefficient `i` is `c(i) mod p`.
pub open spec fn from_fn(n: nat, c: spec_fn(int) -> int) -> Seq<u32> {
    Seq::new(n, |i: int| (c(i) % modulus()) as u32)
}

pub open spec fn add_coefs(a: Seq<u32>, b: Seq<u32>) -> spec_fn(int) -> int {
    |i: int| coef(a, i) + coef(b, i)
}

pub open spec fn sub_coefs(a: Seq<u32>, b: Seq<u32>) -> spec_fn(int) -> int {
    |i: int| coef(a, i) - coef(b, i)
}

pub open spec fn scalar_coefs(a: Seq<u32>, c: int) -> spec_fn(int) -> int {
    |i: int| coef(a, i) * c
}

pub open spec fn conv_coefs(a: Seq<u32>, b: Seq<u32>) -> spec_fn(int) -> int {
    |k: int| conv(a, b, k)
}

pub open spec fn deriv_coefs(f: Seq<u32>) -> spec_fn(int) -> int {
    |i: int| (i + 1) * coef(f, i + 1)
}

pub open spec fn max_len(a: Seq<u32>, b: Seq<u32>) -> nat {
    if a.len() >= b.len() {
        a.len()
    } else {
        b.len()
    }
}

/// `a + b`.
pub open spec fn add_spec(a: Seq<u32>, b: Seq<u32>) -> Seq<u32> {
    trim_spec(from_fn(max_len(a, b), add_coefs(a, b)))
}

/// `a - b`.
pub open spec fn sub_spec(a: Seq<u32>, b: Seq<u32>) -> Seq<u32> {
    trim_spec(from_fn(max_len(a, b), sub_coefs(a, b)))
}

/// `c * a`.
pub open spec fn scalar_spec(a: Seq<u32>, c: int) -> Seq<u32> {
    trim_spec(from_fn(a.len(), scalar_coefs(a, c)))
}

/// `sum_{i < n} a_i * b_{k-i}`.
pub open spec fn conv_upto(a: Seq<u32>, b: Seq<u32>, k: int, n: int) -> int
    decreases n,
{
    if n <= 0 {
        0
    } else {
        conv_upto(a, b, k, n - 1) + coef(a, n - 1) * coef(b, k - (n - 1))
    }
}

/// Coefficient `k` of the product `a * b` before reduction.
pub open spec fn conv(a: Seq<u32>, b: Seq<u32>, k: int) -> int {
    conv_upto(a, b, k, a.len() as int)
}

/// `a * b`.
pub open spec fn mul_spec(a: Seq<u32>, b: Seq<u32>) -> Seq<u32> {
    if a.len() == 0 || b.len() == 0 {
        Seq::empty()
    } else {
        trim_spec(from_fn((a.len() + b.len() - 1) as nat, conv_coefs(a, b)))
    }
}

/// Value of `f` at `x` (Horner form, before reduction).
pub open spec fn peval(f: Seq<u32>, x: int) -> int
    decreases f.len(),
{
    if f.len() == 0 {
        0
    } else {
        f[0] + x * peval(f.drop_first(), x)
    }
}

/// Formal derivative.
pub open spec fn deriv_spec(f: Seq<u32>) -> Seq<u32> {
    if f.len() <= 1 {
        Seq::empty()
    } else {
        trim_spec(from_fn((f.len() - 1) as nat, deriv_coefs(f)))
    }
}

/// `a == q * b + r` coefficient-wise in F_p, with `deg r < deg b`.
pub open spec fn is_divmod(a: Seq<u32>, b: Seq<u32>, q: Seq<u32>, r: Seq<u32>) -> bool {
    &&& reduced(b)
    &&& canon(q)
    &&& canon(r)
    &&& r.len() < trim_spec(b).len()
    &&& forall|k: int| #[trigger] ((conv(q, b, k) + coef(r, k)) % modulus()) == coef(a, k) % modulus()
}

// ---------------------------------------------------------------------------
// trim
// ---------------------------------------------------------------------------

pub proof fn lemma_trim(f: Seq<u32>)
    ensures
        trimmed(trim_spec(f)),
        trim_spec(f).len() <= f.len(),
        trim_spec(f) == f.subrange(0, trim_spec(f).len() as int),
        forall|i: int| trim_spec(f).len() <= i < f.len() ==> #[trigger] f[i] == 0,
        forall|i: int| #[trigger] coef(trim_spec(f), i) == coef(f, i),
        reduced(f) ==> reduced(trim_spec(f)),
    decreases f.len(),
{
    if f.len() > 0 && f.last() == 0 {
        lemma_trim(f.drop_last());
        let g = f.drop_last();
        assert forall|i: int| #[trigger] coef(trim_spec(f), i) == coef(f, i) by {
            assert(coef(trim_spec(g), i) == coef(g, i));
        }
        assert(trim_spec(f) =~= f.subrange(0, trim_spec(f).len() as int)) by {
            assert(trim_spec(g) =~= g.subrange(0, trim_spec(g).len() as int));
        }
        assert forall|i: int| trim_spec(f).len() <= i < f.len() implies #[trigger] f[i] == 0 by {
            if i < g.len() {
                assert(g[i] == 0);
            }
        }
    } else {
        assert(f =~= f.subrange(0, f.len() as int));
    }
}

/// Two trimmed sequences with the same coefficients are equal.
pub proof fn lemma_trimmed_eq(f: Seq<u32>, g: Seq<u32>)
    requires
        trimmed(f),
        trimmed(g),
        forall|i: int| #[trigger] coef(f, i) == coef(g, i),
    ensures
        f == g,
{
    if f.len() > g.len() {
        assert(coef(f, f.len() - 1) == coef(g, f.len() - 1));
    } else if g.len() > f.len() {
        assert(coef(f, g.len() - 1) == coef(g, g.len() - 1));
    } else {
        assert forall|i: int| 0 <= i < f.len() implies f[i] == g[i] by {
            assert(coef(f, i) == coef(g, i));
        }
        assert(f =~= g);
    }
}

/// A trimmed sequence whose coefficients match `f` is `trim_spec(f)`.
pub proof fn lemma_is_trim_of(g: Seq<u32>, f: Seq<u32>)
    requires
        trimmed(g),
        forall|i: int| #[trigger] coef(g, i) == coef(f, i),
    ensures
        g == trim_spec(f),
{
    lemma_trim(f);
    assert forall|i: int| #[trigger] coef(g, i) == coef(trim_spec(f), i) by {
        assert(coef(g, i) == coef(f, i));
        assert(coef(trim_spec(f), i) == coef(f, i));
    }
    lemma_trimmed_eq(g, trim_spec(f));
}

pub proof fn lemma_trim_canon(f: Seq<u32>)
    requires
        canon(f),
    ensures
        trim_spec(f) == f,
{
    lemma_is_trim_of(f, f);
}

pub proof fn lemma_from_fn_reduced(n: nat, c: spec_fn(int) -> int)
    ensures
        reduced(from_fn(n, c)),
        forall|i: int| 0 <= i < n ==> #[trigger] coef(from_fn(n, c), i) == c(i) % modulus(),
{
    assert forall|i: int| 0 <= i < n implies #[trigger] from_fn(n, c)[i] < P by {
        lemma_mod_bound(c(i), modulus());
    }
    assert forall|i: int| 0 <= i < n implies #[trigger] coef(from_fn(n, c), i) == c(i) % modulus() by {
        lemma_mod_bound(c(i), modulus());
    }
}

/// The canonical results of the spec operations.
pub proof fn lemma_ops_canon(a: Seq<u32>, b: Seq<u32>, c: int)
    ensures
        canon(add_spec(a, b)),
        canon(sub_spec(a, b)),
        canon(scalar_spec(a, c)),
        canon(mul_spec(a, b)),
        canon(deriv_spec(a)),
{
    let n = max_len(a, b);
    let fa = add_coefs(a, b);
    let fs = sub_coefs(a, b);
    let fc = scalar_coefs(a, c);
    let fm = conv_coefs(a, b);
    let fd = deriv_coefs(a);
    lemma_from_fn_reduced(n, fa);
    lemma_trim(from_fn(n, fa));
    lemma_from_fn_reduced(n, fs);
    lemma_trim(from_fn(n, fs));
    lemma_from_fn_reduced(a.len(), fc);
    lemma_trim(from_fn(a.len(), fc));
    if a.len() > 0 && b.len() > 0 {
        lemma_from_fn_reduced((a.len() + b.len() - 1) as nat, fm);
        lemma_trim(from_fn((a.len() + b.len() - 1) as nat, fm));
    }
    if a.len() > 1 {
        lemma_from_fn_reduced((a.len() - 1) as nat, fd);
        lemma_trim(from_fn((a.len() - 1) as nat, fd));
    }
}

// ---------------------------------------------------------------------------
// convolution
// ---------------------------------------------------------------------------

/// Terms beyond the stored length of `a` contribute nothing.
pub proof fn lemma_conv_upto_stable(a: Seq<u32>, b: Seq<u32>, k: int, n: int)
    requires
        n >= a.len(),
    ensures
        conv_upto(a, b, k, n) == conv(a, b, k),
    decreases n,
{
    if n > a.len() {
        lemma_conv_upto_stable(a, b, k, n - 1);
    }
}

/// Only indices `i <= k` contribute.
pub proof fn lemma_conv_upto_cap(a: Seq<u32>, b: Seq<u32>, k: int, n: int)
    requires
        n > k + 1,
        k >= -1,
    ensures
        conv_upto(a, b, k, n) == conv_upto(a, b, k, k + 1),
    decreases n,
{
    if n > k + 2 {
        lemma_conv_upto_cap(a, b, k, n - 1);
    }
}

/// The product has no coefficient beyond `len a + len b - 2`.
pub proof fn lemma_conv_high_zero(a: Seq<u32>, b: Seq<u32>, k: int, n: int)
    requires
        k >= n + b.len() - 1,
        n <= a.len(),
    ensures
        conv_upto(a, b, k, n) == 0,
    decreases n,
{
    if n > 0 {
        lemma_conv_high_zero(a, b, k, n - 1);
    }
}

/// The product has no coefficient at negative index.
pub proof fn lemma_conv_neg_zero(a: Seq<u32>, b: Seq<u32>, k: int, n: int)
    requires
        k < 0,
    ensures
        conv_upto(a, b, k, n) == 0,
    decreases n,
{
    if n > 0 {
        lemma_conv_neg_zero(a, b, k, n - 1);
    }
}

proof fn lemma_conv_empty_right(a: Seq<u32>, b: Seq<u32>, k: int, n: int)
    requires
        b.len() == 0,
    ensures
        conv_upto(a, b, k, n) == 0,
    decreases n,
{
    if n > 0 {
        lemma_conv_empty_right(a, b, k, n - 1);
    }
}

/// Coefficients of `mul_spec` are the reduced convolution, everywhere.
pub proof fn lemma_mul_spec_coef(a: Seq<u32>, b: Seq<u32>, k: int)
    ensures
        coef(mul_spec(a, b), k) == conv(a, b, k) % modulus(),
{
    let fm = conv_coefs(a, b);
    if a.len() == 0 {
        assert(conv(a, b, k) == 0);
        assert(mul_spec(a, b).len() == 0);
        assert(coef(mul_spec(a, b), k) == conv(a, b, k) % modulus());
    } else if b.len() == 0 {
        lemma_conv_empty_right(a, b, k, a.len() as int);
        assert(conv(a, b, k) == 0);
        assert(mul_spec(a, b).len() == 0);
        assert(coef(mul_spec(a, b), k) == conv(a, b, k) % modulus());
    } else {
        let n = (a.len() + b.len() - 1) as nat;
        lemma_from_fn_reduced(n, fm);
        lemma_trim(from_fn(n, fm));
        assert(coef(mul_spec(a, b), k) == coef(from_fn(n, fm), k));
        if k < 0 {
            lemma_conv_neg_zero(a, b, k, a.len() as int);
            assert(coef(from_fn(n, fm), k) == 0);
            assert(conv(a, b, k) == 0);
        } else if k >= n {
            lemma_conv_high_zero(a, b, k, a.len() as int);
            assert(coef(from_fn(n, fm), k) == 0);
            assert(conv(a, b, k) == 0);
        } else {
            assert(coef(from_fn(n, fm), k) == fm(k) % modulus());
        }
        assert(coef(mul_spec(a, b), k) == conv(a, b, k) % modulus());
    }
}

pub proof fn lemma_add_spec_coef(a: Seq<u32>, b: Seq<u32>, k: int)
    ensures
        coef(add_spec(a, b), k) == (coef(a, k) + coef(b, k)) % modulus(),
        coef(sub_spec(a, b), k) == (coef(a, k) - coef(b, k)) % modulus(),
{
    let n = max_len(a, b);
    let fa = add_coefs(a, b);
    let fs = sub_coefs(a, b);
    lemma_from_fn_reduced(n, fa);
    lemma_trim(from_fn(n, fa));
    lemma_from_fn_reduced(n, fs);
    lemma_trim(from_fn(n, fs));
}

pub proof fn lemma_scalar_spec_coef(a: Seq<u32>, c: int, k: int)
    ensures
        coef(scalar_spec(a, c), k) == (coef(a, k) * c) % modulus(),
{
    let fc = scalar_coefs(a, c);
    lemma_from_fn_reduced(a.len(), fc);
    lemma_trim(from_fn(a.len(), fc));
    assert(coef(scalar_spec(a, c), k) == coef(from_fn(a.len(), fc), k));
    if k < 0 || k >= a.len() {
        lemma_mul_basics(c);
        assert(coef(a, k) == 0);
        assert(coef(from_fn(a.len(), fc), k) == 0);
        assert((0 * c) % modulus() == 0);
    } else {
        assert(coef(from_fn(a.len(), fc), k) == fc(k) % modulus());
    }
}


/// Conv only depends on the coefficients of its arguments.
pub proof fn lemma_conv_ext(a1: Seq<u32>, a2: Seq<u32>, b1: Seq<u32>, b2: Seq<u32>, k: int)
    requires
        forall|i: int| #[trigger] coef(a1, i) == coef(a2, i),
        forall|i: int| #[trigger] coef(b1, i) == coef(b2, i),
    ensures
        conv(a1, b1, k) == conv(a2, b2, k),
{
    let n = if a1.len() >= a2.len() { a1.len() as int } else { a2.len() as int };
    lemma_conv_upto_stable(a1, b1, k, n);
    lemma_conv_upto_stable(a2, b2, k, n);
    lemma_conv_upto_ext(a1, a2, b1, b2, k, n);
}

proof fn lemma_conv_upto_ext(a1: Seq<u32>, a2: Seq<u32>, b1: Seq<u32>, b2: Seq<u32>, k: int, n: int)
    requires
        forall|i: int| #[trigger] coef(a1, i) == coef(a2, i),
        forall|i: int| #[trigger] coef(b1, i) == coef(b2, i),
    ensures
        conv_upto(a1, b1, k, n) == conv_upto(a2, b2, k, n),
    decreases n,
{
    if n > 0 {
        lemma_conv_upto_ext(a1, a2, b1, b2, k, n - 1);
        assert(coef(a1, n - 1) == coef(a2, n - 1));
        assert(coef(b1, k - (n - 1)) == coef(b2, k - (n - 1)));
    }
}

/// Setting coefficient `s` of `q` to `c` moves coefficient `k` of `q * b` by
/// `(c - q_s) * b_{k-s}`.
pub proof fn lemma_conv_update(q: Seq<u32>, b: Seq<u32>, k: int, s: int, c: u32)
    requires
        0 <= s < q.len(),
    ensures
        conv(q.update(s, c), b, k) == conv(q, b, k) + (c - q[s]) * coef(b, k - s),
{
    lemma_conv_upto_update(q, b, k, s, c, q.len() as int);
}

proof fn lemma_conv_upto_update(q: Seq<u32>, b: Seq<u32>, k: int, s: int, c: u32, n: int)
    requires
        0 <= s < q.len(),
        n <= q.len(),
    ensures
        conv_upto(q.update(s, c), b, k, n) == conv_upto(q, b, k, n) + (if s < n {
            (c - q[s]) * coef(b, k - s)
        } else {
            0
        }),
    decreases n,
{
    if n > 0 {
        lemma_conv_upto_update(q, b, k, s, c, n - 1);
        let q2 = q.update(s, c);
        if n - 1 == s {
            assert(coef(q2, s) == c);
            assert(coef(q2, s) * coef(b, k - s) == coef(q, s) * coef(b, k - s) + (c - q[s]) * coef(
                b,
                k - s,
            )) by (nonlinear_arith)
                requires
                    coef(q2, s) == c,
                    coef(q, s) == q[s],
            ;
        } else {
            assert(coef(q2, n - 1) == coef(q, n - 1));
        }
    }
}

/// The product by a one- or two-term polynomial.
pub proof fn lemma_conv_short(q: Seq<u32>, b: Seq<u32>, k: int)
    requires
        q.len() == 1 || q.len() == 2,
    ensures
        q.len() == 1 ==> conv(q, b, k) == q[0] * coef(b, k),
        q.len() == 2 ==> conv(q, b, k) == q[0] * coef(b, k) + q[1] * coef(b, k - 1),
{
    reveal_with_fuel(conv_upto, 3);
}

/// The remainder of `a` by `b`, as fixed by `is_divmod`.
pub open spec fn rem_spec(a: Seq<u32>, b: Seq<u32>) -> Seq<u32> {
    choose|r: Seq<u32>| #[trigger] has_rem(a, b, r)
}

/// `r` is a remainder of `a` by `b`.
pub open spec fn has_rem(a: Seq<u32>, b: Seq<u32>, r: Seq<u32>) -> bool {
    exists|q: Seq<u32>| #[trigger] is_divmod(a, b, q, r)
}

/// The quotient of `a` by `b`, as fixed by `is_divmod`.
pub open spec fn quot_spec(a: Seq<u32>, b: Seq<u32>) -> Seq<u32> {
    choose|q: Seq<u32>| #[trigger] is_divmod(a, b, q, rem_spec(a, b))
}

/// `sum_{i < n} (q1_i - q2_i) * b_{k-i}`.
spec fn diff_conv(q1: Seq<u32>, q2: Seq<u32>, b: Seq<u32>, k: int, n: int) -> int
    decreases n,
{
    if n <= 0 {
        0
    } else {
        diff_conv(q1, q2, b, k, n - 1) + (coef(q1, n - 1) - coef(q2, n - 1)) * coef(b, k - (n - 1))
    }
}

proof fn lemma_diff_conv(q1: Seq<u32>, q2: Seq<u32>, b: Seq<u32>, k: int, n: int)
    ensures
        diff_conv(q1, q2, b, k, n) == conv_upto(q1, b, k, n) - conv_upto(q2, b, k, n),
    decreases n,
{
    if n > 0 {
        lemma_diff_conv(q1, q2, b, k, n - 1);
        assert((coef(q1, n - 1) - coef(q2, n - 1)) * coef(b, k - (n - 1)) == coef(q1, n - 1) * coef(
            b,
            k - (n - 1),
        ) - coef(q2, n - 1) * coef(b, k - (n - 1))) by (nonlinear_arith);
    }
}

/// With `t` the top index where `q1` and `q2` differ and `lb` the degree of
/// `b`, coefficient `t + lb` of `(q1 - q2) * b` is `(q1_t - q2_t) * lc(b)`.
proof fn lemma_diff_conv_top(q1: Seq<u32>, q2: Seq<u32>, b: Seq<u32>, t: int, n: int)
    requires
        trimmed(b),
        b.len() > 0,
        0 <= t,
        forall|i: int| i > t ==> #[trigger] coef(q1, i) == coef(q2, i),
    ensures
        diff_conv(q1, q2, b, t + b.len() - 1, n) == (if n > t {
            (coef(q1, t) - coef(q2, t)) * b.last()
        } else {
            0
        }),
    decreases n,
{
    if n > 0 {
        lemma_diff_conv_top(q1, q2, b, t, n - 1);
        let i = n - 1;
        let k = t + b.len() - 1;
        if i < t {
            assert(coef(b, k - i) == 0);
            lemma_mul_basics(coef(q1, i) - coef(q2, i));
        } else if i > t {
            assert(coef(q1, i) == coef(q2, i));
            lemma_mul_basics(coef(b, k - i));
        } else {
            assert(coef(b, k - i) == b.last());
        }
    }
}

/// Division with remainder is unique.
pub proof fn lemma_divmod_unique(a: Seq<u32>, b: Seq<u32>, q1: Seq<u32>, r1: Seq<u32>, q2: Seq<u32>, r2: Seq<u32>)
    requires
        is_divmod(a, b, q1, r1),
        is_divmod(a, b, q2, r2),
    ensures
        q1 == q2,
        r1 == r2,
{
    let p = modulus();
    let bt = trim_spec(b);
    lemma_trim(b);
    assert forall|k: int| #[trigger] conv(q1, b, k) == conv(q1, bt, k) && conv(q2, b, k) == conv(q2, bt, k) by {
        lemma_conv_ext(q1, q1, b, bt, k);
        lemma_conv_ext(q2, q2, b, bt, k);
    }
    if q1 != q2 {
        // the top differing index
        let t = choose|t: int| 0 <= t && coef(q1, t) != coef(q2, t) && forall|i: int| i > t ==> #[trigger] coef(q1, i) == coef(q2, i);
        assert(exists|t: int| 0 <= t && coef(q1, t) != coef(q2, t) && forall|i: int| i > t ==> #[trigger] coef(q1, i) == coef(q2, i)) by {
            lemma_top_difference(q1, q2);
        }
        let k = t + bt.len() - 1;
        let n = if q1.len() >= q2.len() { q1.len() as int } else { q2.len() as int };
        assert(t < n);
        lemma_diff_conv_top(q1, q2, bt, t, n);
        lemma_diff_conv(q1, q2, bt, k, n);
        lemma_conv_upto_stable(q1, bt, k, n);
        lemma_conv_upto_stable(q2, bt, k, n);
        // both remainders vanish at k
        assert(coef(r1, k) == 0 && coef(r2, k) == 0);
        assert((conv(q1, b, k) + coef(r1, k)) % p == coef(a, k) % p);
        assert((conv(q2, b, k) + coef(r2, k)) % p == coef(a, k) % p);
        let d = coef(q1, t) - coef(q2, t);
        assert((d * bt.last()) % p == 0) by {
            lemma_sub_mod_noop(conv(q1, bt, k), conv(q2, bt, k), p);
            lemma_mod_self_0(p);
            assert(conv(q1, bt, k) - conv(q2, bt, k) == d * bt.last());
            assert((conv(q1, bt, k) % p - conv(q2, bt, k) % p) == 0);
        }
        assert(d % p != 0) by {
            assert(0 <= coef(q1, t) < p);
            assert(0 <= coef(q2, t) < p);
            if d % p == 0 {
                lemma_mod_bound(d, p);
                assert(-p < d < p);
                if d > 0 {
                    lemma_small_mod(d as nat, p as nat);
                } else if d < 0 {
                    lemma_mod_add_multiples_vanish(d, p);
                    lemma_small_mod((d + p) as nat, p as nat);
                }
            }
        }
        assert((bt.last() as int) % p != 0) by {
            assert(reduced(bt));
            assert(bt[bt.len() - 1] < P);
            lemma_small_mod(bt.last() as nat, p as nat);
        }
        crate::field::lemma_field_no_zero_divisors(d, bt.last() as int);
    }
    assert forall|k: int| #[trigger] coef(r1, k) == coef(r2, k) by {
        assert((conv(q1, b, k) + coef(r1, k)) % p == (conv(q1, b, k) + coef(r2, k)) % p);
        lemma_add_mod_noop(conv(q1, b, k), coef(r1, k), p);
        lemma_add_mod_noop(conv(q1, b, k), coef(r2, k), p);
        assert(0 <= coef(r1, k) < p);
        assert(0 <= coef(r2, k) < p);
        lemma_small_mod(coef(r1, k) as nat, p as nat);
        lemma_small_mod(coef(r2, k) as nat, p as nat);
        lemma_mod_bound(conv(q1, b, k), p);
        // (x + y) % p == (x + z) % p with y, z in [0, p) forces y == z
        lemma_mod_cancel(conv(q1, b, k) % p, coef(r1, k), coef(r2, k));
    }
    lemma_trimmed_eq(r1, r2);
}

proof fn lemma_mod_cancel(x: int, y: int, z: int)
    requires
        0 <= x < modulus(),
        0 <= y < modulus(),
        0 <= z < modulus(),
        (x + y) % modulus() == (x + z) % modulus(),
    ensures
        y == z,
{
    let p = modulus();
    if x + y >= p {
        lemma_mod_sub_multiples_vanish(x + y, p);
        lemma_small_mod((x + y - p) as nat, p as nat);
    } else {
        lemma_small_mod((x + y) as nat, p as nat);
    }
    if x + z >= p {
        lemma_mod_sub_multiples_vanish(x + z, p);
        lemma_small_mod((x + z - p) as nat, p as nat);
    } else {
        lemma_small_mod((x + z) as nat, p as nat);
    }
}

/// Two different canonical sequences differ at a top index.
proof fn lemma_top_difference(q1: Seq<u32>, q2: Seq<u32>)
    requires
        canon(q1),
        canon(q2),
        q1 != q2,
    ensures
        exists|t: int| 0 <= t && coef(q1, t) != coef(q2, t) && forall|i: int| i > t ==> #[trigger] coef(q1, i) == coef(q2, i),
{
    if forall|i: int| #[trigger] coef(q1, i) == coef(q2, i) {
        lemma_trimmed_eq(q1, q2);
    }
    let n = if q1.len() >= q2.len() { q1.len() as int } else { q2.len() as int };
    let i0 = choose|i: int| coef(q1, i) != coef(q2, i);
    assert(0 <= i0 < n);
    lemma_top_difference_from(q1, q2, n - 1, n);
}

proof fn lemma_top_difference_from(q1: Seq<u32>, q2: Seq<u32>, j: int, n: int)
    requires
        n == if q1.len() >= q2.len() { q1.len() as int } else { q2.len() as int },
        -1 <= j < n,
        forall|i: int| i > j ==> #[trigger] coef(q1, i) == coef(q2, i),
        exists|i: int| #[trigger] coef(q1, i) != coef(q2, i),
    ensures
        exists|t: int| 0 <= t && coef(q1, t) != coef(q2, t) && forall|i: int| i > t ==> #[trigger] coef(q1, i) == coef(q2, i),
    decreases j + 1,
{
    let i0 = choose|i: int| #[trigger] coef(q1, i) != coef(q2, i);
    if j < 0 {
        assert(coef(q1, i0) == coef(q2, i0));
    } else if coef(q1, j) != coef(q2, j) {
    } else {
        assert forall|i: int| i > j - 1 implies #[trigger] coef(q1, i) == coef(q2, i) by {
            if i == j {
            }
        }
        lemma_top_difference_from(q1, q2, j - 1, n);
    }
}

/// A witness of `is_divmod` is the quotient and remainder.
pub proof fn lemma_divmod_is_spec(a: Seq<u32>, b: Seq<u32>, q: Seq<u32>, r: Seq<u32>)
    requires
        is_divmod(a, b, q, r),
    ensures
        rem_spec(a, b) == r,
        quot_spec(a, b) == q,
        is_divmod(a, b, quot_spec(a, b), rem_spec(a, b)),
{
    assert(has_rem(a, b, r));
    let r2 = rem_spec(a, b);
    assert(has_rem(a, b, r2));
    assert(exists|q2: Seq<u32>| #[trigger] is_divmod(a, b, q2, r2));
    let q2 = choose|q2: Seq<u32>| #[trigger] is_divmod(a, b, q2, r2);
    lemma_divmod_unique(a, b, q, r, q2, r2);
    let q3 = quot_spec(a, b);
    assert(is_divmod(a, b, q3, r2));
    lemma_divmod_unique(a, b, q, r, q3, r2);
}


/// An all-zero first factor gives a zero product.
pub proof fn lemma_conv_zero_left(q: Seq<u32>, b: Seq<u32>, k: int, n: int)
    requires
        forall|j: int| 0 <= j < q.len() ==> #[trigger] q[j] == 0,
        n <= q.len(),
    ensures
        conv_upto(q, b, k, n) == 0,
    decreases n,
{
    if n > 0 {
        lemma_conv_zero_left(q, b, k, n - 1);
        assert(q[n - 1] == 0);
        lemma_mul_basics(coef(b, k - (n - 1)));
    }
}


/// If `x * inv * lc == x` (i.e. `inv * lc == 1`) then `c = x*inv mod p`
/// satisfies `c * lc == x (mod p)`.
pub proof fn lemma_unit_cancel(x: int, inv: int, lc: int, c: int)
    requires
        (lc * inv) % modulus() == 1,
        c == (x * inv) % modulus(),
    ensures
        (c * lc) % modulus() == x % modulus(),
{
    let p = modulus();
    lemma_mul_mod_noop_left(x * inv, lc, p);
    lemma_mul_is_associative(x, inv, lc);
    lemma_mul_is_commutative(inv, lc);
    lemma_mul_mod_noop_right(x, lc * inv, p);
    lemma_mul_basics(x);
}

/// `(x - d) mod p` vanishes when `x == d (mod p)`... stated as: if
/// `(x - d) % p == 0` then `(d + 0) % p == x % p`.
pub proof fn lemma_mod_sub_mod_zero(x: int, d: int)
    requires
        (x - d) % modulus() == 0,
    ensures
        (d + 0) % modulus() == x % modulus(),
{
    let p = modulus();
    lemma_fundamental_div_mod(x - d, p);
    let k = (x - d) / p;
    assert(x == d + k * p) by {
        lemma_mul_is_commutative(p, k);
    }
    lemma_mod_multiples_vanish(k, d, p);
}

/// If `top == (x - y) mod p` and `z == top (mod p)` then `y + z == x (mod p)`.
pub proof fn lemma_mod_sub_rel(x: int, y: int, z: int, top: int)
    requires
        top == (x - y) % modulus(),
        z % modulus() == top % modulus(),
    ensures
        (y + z + 0) % modulus() == x % modulus(),
{
    let p = modulus();
    lemma_mod_twice(x - y, p);
    lemma_add_mod_noop_right(y, z, p);
    lemma_add_mod_noop_right(y, x - y, p);
}

/// Dividing by a constant polynomial leaves remainder zero.
pub proof fn lemma_quotient_by_constant(a: Seq<u32>, b: Seq<u32>, inv: u32, q: Seq<u32>)
    requires
        canon(a),
        a.len() == 2,
        canon(b),
        b.len() == 1,
        ((b[0] as int) * (inv as int)) % modulus() == 1,
        q == seq![
            (((a[0] as int) * (inv as int)) % modulus()) as u32,
            (((a[1] as int) * (inv as int)) % modulus()) as u32,
        ],
    ensures
        is_divmod(a, b, q, Seq::<u32>::empty()),
{
    let p = modulus();
    lemma_mod_bound((a[0] as int) * (inv as int), p);
    lemma_mod_bound((a[1] as int) * (inv as int), p);
    lemma_trim_canon(b);
    assert(q[1] != 0) by {
        if q[1] == 0 {
            lemma_unit_cancel(a[1] as int, inv as int, b[0] as int, 0);
            lemma_mul_basics(b[0] as int);
            lemma_small_mod(a[1] as nat, p as nat);
        }
    }
    assert forall|k: int| #[trigger] ((conv(q, b, k) + coef(Seq::<u32>::empty(), k)) % modulus()) == coef(a, k) % modulus() by {
        lemma_conv_short(q, b, k);
        if k == 0 {
            assert(coef(b, -1) == 0);
            lemma_mul_basics(q[1] as int);
            lemma_unit_cancel(a[0] as int, inv as int, b[0] as int, q[0] as int);
            lemma_mul_is_commutative(q[0] as int, b[0] as int);
        } else if k == 1 {
            assert(coef(b, 1) == 0);
            lemma_mul_basics(q[0] as int);
            lemma_unit_cancel(a[1] as int, inv as int, b[0] as int, q[1] as int);
            lemma_mul_is_commutative(q[1] as int, b[0] as int);
        } else {
            assert(coef(b, k) == 0);
            assert(coef(b, k - 1) == 0);
            lemma_mul_basics(q[0] as int);
            lemma_mul_basics(q[1] as int);
        }
    }
}

/// A remainder of the trimmed arguments is a remainder of the untrimmed ones.
pub proof fn lemma_rem_trim_args(a: Seq<u32>, b: Seq<u32>, r: Seq<u32>)
    requires
        reduced(a),
        reduced(b),
        has_rem(trim_spec(a), trim_spec(b), r),
    ensures
        has_rem(a, b, r),
        rem_spec(a, b) == r,
{
    lemma_trim(a);
    lemma_trim(b);
    let ta = trim_spec(a);
    let tb = trim_spec(b);
    lemma_trim(tb);
    assert(trim_spec(tb) == tb) by {
        lemma_trim_canon(tb);
    }
    let q = choose|q: Seq<u32>| #[trigger] is_divmod(ta, tb, q, r);
    assert forall|k: int| #[trigger] ((conv(q, b, k) + coef(r, k)) % modulus()) == coef(a, k) % modulus() by {
        lemma_conv_ext(q, q, b, tb, k);
        assert((conv(q, tb, k) + coef(r, k)) % modulus() == coef(ta, k) % modulus());
    }
    assert(is_divmod(a, b, q, r));
    lemma_divmod_is_spec(a, b, q, r);
}


/// The Euclidean remainder sequence of `a` and `b`, ending at the last
/// nonzero remainder.
pub open spec fn euclid(a: Seq<u32>, b: Seq<u32>) -> Seq<u32>
    decreases b.len(),
{
    if b.len() == 0 {
        a
    } else if rem_spec(a, b).len() < b.len() {
        euclid(b, rem_spec(a, b))
    } else {
        a
    }
}

/// The Euclidean sequence never grows past its longer argument.
pub proof fn lemma_euclid_len(a: Seq<u32>, b: Seq<u32>)
    ensures
        euclid(a, b).len() <= max_len(a, b),
    decreases b.len(),
{
    if b.len() > 0 && rem_spec(a, b).len() < b.len() {
        lemma_euclid_len(b, rem_spec(a, b));
    }
}

/// Inverse of a field element as used by the library: `x^(p-2) mod p`.
pub open spec fn inv_spec(x: int) -> int {
    pow(x, (modulus() - 2) as nat) % modulus()
}

/// `f` scaled so that its leading coefficient is one.
pub open spec fn monic(f: Seq<u32>) -> Seq<u32> {
    if f.len() == 0 {
        f
    } else {
        Seq::new(f.len(), |i: int| (((f[i] as int) * inv_spec(f.last() as int)) % modulus()) as u32)
    }
}

/// Monic greatest common divisor by the Euclidean algorithm.
pub open spec fn gcd_spec(a: Seq<u32>, b: Seq<u32>) -> Seq<u32> {
    monic(euclid(trim_spec(a), trim_spec(b)))
}


/// Leading coefficient (zero for the zero polynomial).
pub open spec fn lead(f: Seq<u32>) -> int {
    if f.len() == 0 {
        0
    } else {
        f.last() as int
    }
}

/// `x` in F_p, negated when `m * n` is odd.
pub open spec fn signed(m: int, n: int, x: int) -> int {
    if (m * n) % 2 == 1 {
        (0 - x) % modulus()
    } else {
        x % modulus()
    }
}

/// Resultant of canonical `a`, `b` with `deg a >= deg b >= 0`, through the
/// remainder sequence: `Res(a, b) = (-1)^(deg a * deg b) lc(b)^(deg a - deg r) Res(b, r)`
/// with `r = a mod b`, `Res(a, c) = c^(deg a)` for a constant `c`, and zero
/// when a remainder vanishes.
pub open spec fn res_seq(a: Seq<u32>, b: Seq<u32>) -> int
    decreases b.len(),
{
    if b.len() <= 1 {
        pow(coef(b, 0), (a.len() - 1) as nat) % modulus()
    } else {
        let r = rem_spec(a, b);
        if r.len() == 0 || r.len() >= b.len() {
            0
        } else {
            (signed(a.len() - 1, b.len() - 1, pow(lead(b), (a.len() - r.len()) as nat)) * res_seq(b, r))
                % modulus()
        }
    }
}

/// The resultant `Res(a, b)` over F_p; zero when either polynomial is zero.
pub open spec fn res_spec(a_in: Seq<u32>, b_in: Seq<u32>) -> int {
    let a = trim_spec(a_in);
    let b = trim_spec(b_in);
    if a.len() == 0 || b.len() == 0 {
        0
    } else if a.len() < b.len() {
        signed(b.len() - 1, a.len() - 1, res_seq(b, a))
    } else {
        res_seq(a, b)
    }
}

/// Normalising a canonical polynomial gives a canonical monic polynomial.
pub proof fn lemma_monic_canon(f: Seq<u32>)
    requires
        canon(f),
    ensures
        canon(monic(f)),
        monic(f).len() == f.len(),
        f.len() > 0 ==> monic(f).last() == 1,
{
    if f.len() > 0 {
        let g = monic(f);
        let lc = f.last() as int;
        let iv = inv_spec(lc);
        assert forall|i: int| 0 <= i < g.len() implies #[trigger] g[i] < P by {
            lemma_mod_bound((f[i] as int) * iv, modulus());
        }
        lemma_small_mod(f.last() as nat, P as nat);
        crate::field::lemma_inverse(lc);
        lemma_mul_mod_noop_right(lc, pow(lc, (modulus() - 2) as nat), modulus());
    }
}


/// The first `n` coefficients of `f`, trimmed.
pub open spec fn trunc_spec(f: Seq<u32>, n: int) -> Seq<u32> {
    trim_spec(f.subrange(0, if n < f.len() { n } else { f.len() as int }))
}

pub proof fn lemma_trunc_coef(f: Seq<u32>, n: int, k: int)
    requires
        n >= 0,
    ensures
        coef(trunc_spec(f, n), k) == if k < n { coef(f, k) } else { 0 },
        trunc_spec(f, n).len() <= n,
        reduced(f) ==> canon(trunc_spec(f, n)),
{
    let m = if n < f.len() { n } else { f.len() as int };
    lemma_trim(f.subrange(0, m));
    if reduced(f) {
        assert(reduced(f.subrange(0, m)));
    }
}

/// Multiplication only depends on the coefficients of its factors.
pub proof fn lemma_mul_spec_ext(a1: Seq<u32>, a2: Seq<u32>, b1: Seq<u32>, b2: Seq<u32>)
    requires
        forall|i: int| #[trigger] coef(a1, i) == coef(a2, i),
        forall|i: int| #[trigger] coef(b1, i) == coef(b2, i),
    ensures
        mul_spec(a1, b1) == mul_spec(a2, b2),
{
    assert forall|k: int| #[trigger] coef(mul_spec(a1, b1), k) == coef(mul_spec(a2, b2), k) by {
        lemma_mul_spec_coef(a1, b1, k);
        lemma_mul_spec_coef(a2, b2, k);
        lemma_conv_ext(a1, a2, b1, b2, k);
    }
    lemma_ops_canon(a1, b1, 0);
    lemma_ops_canon(a2, b2, 0);
    lemma_trimmed_eq(mul_spec(a1, b1), mul_spec(a2, b2));
}


/// The division of `a` by `b` stays within the NTT length limit: either the
/// quotient is short (schoolbook) or the Newton route's products fit.
pub open spec fn divides_within_ntt(a: Seq<u32>, b: Seq<u32>) -> bool {
    trim_spec(a).len() < trim_spec(b).len() + 255 || (trim_spec(a).len() <= 16777216
        && trim_spec(a).len() < trim_spec(b).len() + 8388608)
}

/// Every division along the remainder sequence of `a` by `b` fits the
/// transform (`divides_within_ntt`).
pub open spec fn rem_chain_fits(a: Seq<u32>, b: Seq<u32>) -> bool
    decreases b.len(),
{
    if b.len() <= 1 {
        true
    } else {
        let r = rem_spec(a, b);
        &&& divides_within_ntt(a, b)
        &&& (r.len() < b.len() ==> rem_chain_fits(b, r))
    }
}

/// The divisions of the resultant's remainder sequence, the longer trimmed
/// argument divided first, fit the transform.
pub open spec fn res_chain_fits(a_in: Seq<u32>, b_in: Seq<u32>) -> bool {
    let a = trim_spec(a_in);
    let b = trim_spec(b_in);
    if a.len() < b.len() {
        rem_chain_fits(b, a)
    } else {
        rem_chain_fits(a, b)
    }
}

/// A division of the trimmed arguments is a division of the untrimmed ones.
pub proof fn lemma_divmod_trim_args(a: Seq<u32>, b: Seq<u32>, q: Seq<u32>, r: Seq<u32>)
    requires
        reduced(a),
        reduced(b),
        is_divmod(trim_spec(a), trim_spec(b), q, r),
    ensures
        is_divmod(a, b, q, r),
{
    lemma_trim(a);
    lemma_trim(b);
    let tb = trim_spec(b);
    lemma_trim(tb);
    lemma_trim_canon(tb);
    assert forall|k: int| #[trigger] ((conv(q, b, k) + coef(r, k)) % modulus()) == coef(a, k) % modulus() by {
        lemma_conv_ext(q, q, b, tb, k);
        assert((conv(q, tb, k) + coef(r, k)) % modulus() == coef(trim_spec(a), k) % modulus());
    }
}

} // verus!
