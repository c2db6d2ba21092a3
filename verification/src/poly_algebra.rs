//! Finite sums and the ring laws of polynomial multiplication over F_p.
use vstd::arithmetic::div_mod::*;
use vstd::arithmetic::mul::*;
use vstd::prelude::*;

use crate::field::modulus;
use crate::poly_spec::{coef, conv, conv_upto, mul_spec, lemma_mul_spec_coef};

verus! {

/// `sum_{lo <= x < hi} f(x)`.
pub open spec fn sum(f: spec_fn(int) -> int, lo: int, hi: int) -> int
    decreases hi - lo,
{
    if lo >= hi {
        0
    } else {
        sum(f, lo, hi - 1) + f(hi - 1)
    }
}

pub proof fn lemma_sum_ext(f: spec_fn(int) -> int, g: spec_fn(int) -> int, lo: int, hi: int)
    requires
        forall|x: int| lo <= x < hi ==> #[trigger] f(x) == g(x),
    ensures
        sum(f, lo, hi) == sum(g, lo, hi),
    decreases hi - lo,
{
    if lo < hi {
        lemma_sum_ext(f, g, lo, hi - 1);
    }
}

pub proof fn lemma_sum_zero(f: spec_fn(int) -> int, lo: int, hi: int)
    requires
        forall|x: int| lo <= x < hi ==> #[trigger] f(x) == 0,
    ensures
        sum(f, lo, hi) == 0,
    decreases hi - lo,
{
    if lo < hi {
        lemma_sum_zero(f, lo, hi - 1);
    }
}

pub proof fn lemma_sum_split(f: spec_fn(int) -> int, lo: int, mid: int, hi: int)
    requires
        lo <= mid <= hi,
    ensures
        sum(f, lo, hi) == sum(f, lo, mid) + sum(f, mid, hi),
    decreases hi - mid,
{
    if mid < hi {
        lemma_sum_split(f, lo, mid, hi - 1);
    }
}

/// Extending the range by terms that vanish leaves the sum unchanged.
pub proof fn lemma_sum_window(f: spec_fn(int) -> int, lo: int, hi: int, lo2: int, hi2: int)
    requires
        lo2 <= lo <= hi <= hi2,
        forall|x: int| lo2 <= x < lo ==> #[trigger] f(x) == 0,
        forall|x: int| hi <= x < hi2 ==> #[trigger] f(x) == 0,
    ensures
        sum(f, lo, hi) == sum(f, lo2, hi2),
{
    lemma_sum_split(f, lo2, lo, hi2);
    lemma_sum_split(f, lo, hi, hi2);
    lemma_sum_zero(f, lo2, lo);
    lemma_sum_zero(f, hi, hi2);
}

pub proof fn lemma_sum_add(f: spec_fn(int) -> int, g: spec_fn(int) -> int, lo: int, hi: int)
    ensures
        sum(|x: int| f(x) + g(x), lo, hi) == sum(f, lo, hi) + sum(g, lo, hi),
    decreases hi - lo,
{
    if lo < hi {
        lemma_sum_add(f, g, lo, hi - 1);
    }
}

pub proof fn lemma_sum_scale(f: spec_fn(int) -> int, c: int, lo: int, hi: int)
    ensures
        sum(|x: int| c * f(x), lo, hi) == c * sum(f, lo, hi),
    decreases hi - lo,
{
    if lo < hi {
        lemma_sum_scale(f, c, lo, hi - 1);
        lemma_mul_is_distributive_add(c, sum(f, lo, hi - 1), f(hi - 1));
    }
}

/// `sum_{lo <= x < hi} f(x) == sum_{lo+s <= y < hi+s} f(y - s)`.
pub proof fn lemma_sum_shift(f: spec_fn(int) -> int, lo: int, hi: int, s: int)
    ensures
        sum(f, lo, hi) == sum(|y: int| f(y - s), lo + s, hi + s),
    decreases hi - lo,
{
    if lo < hi {
        lemma_sum_shift(f, lo, hi - 1, s);
    }
}

/// Reflection: `sum_{lo <= x < hi} f(x) == sum_{c-hi < y <= c-lo} f(c - y)`.
pub proof fn lemma_sum_reflect(f: spec_fn(int) -> int, lo: int, hi: int, c: int)
    ensures
        sum(f, lo, hi) == sum(|y: int| f(c - y), c - hi + 1, c - lo + 1),
    decreases hi - lo,
{
    let g = |y: int| f(c - y);
    if lo < hi {
        lemma_sum_reflect(f, lo, hi - 1, c);
        // sum(g, c-hi+1, c-lo+1) == g(c-hi+1) + sum(g, c-hi+2, c-lo+1)
        lemma_sum_split(g, c - hi + 1, c - hi + 2, c - lo + 1);
        assert(sum(g, c - hi + 1, c - hi + 2) == g(c - hi + 1)) by {
            reveal_with_fuel(sum, 2);
        }
    }
}

pub open spec fn row(g: spec_fn(int, int) -> int, x: int) -> spec_fn(int) -> int {
    |y: int| g(x, y)
}

pub open spec fn col(g: spec_fn(int, int) -> int, y: int) -> spec_fn(int) -> int {
    |x: int| g(x, y)
}

pub open spec fn row_sums(g: spec_fn(int, int) -> int, lo: int, hi: int) -> spec_fn(int) -> int {
    |x: int| sum(row(g, x), lo, hi)
}

pub open spec fn col_sums(g: spec_fn(int, int) -> int, lo: int, hi: int) -> spec_fn(int) -> int {
    |y: int| sum(col(g, y), lo, hi)
}

/// Exchange of a finite double sum over a rectangle.
pub proof fn lemma_sum_swap(g: spec_fn(int, int) -> int, lo1: int, hi1: int, lo2: int, hi2: int)
    ensures
        sum(row_sums(g, lo2, hi2), lo1, hi1) == sum(col_sums(g, lo1, hi1), lo2, hi2),
    decreases hi1 - lo1,
{
    if lo1 < hi1 {
        lemma_sum_swap(g, lo1, hi1 - 1, lo2, hi2);
        let a = col_sums(g, lo1, hi1 - 1);
        let b = row(g, hi1 - 1);
        lemma_sum_add(a, b, lo2, hi2);
        assert forall|y: int| lo2 <= y < hi2 implies #[trigger] col_sums(g, lo1, hi1)(y) == a(y) + b(y) by {
        }
        lemma_sum_ext(col_sums(g, lo1, hi1), |y: int| a(y) + b(y), lo2, hi2);
    } else {
        assert forall|y: int| lo2 <= y < hi2 implies #[trigger] col_sums(g, lo1, hi1)(y) == 0 by {
        }
        lemma_sum_zero(col_sums(g, lo1, hi1), lo2, hi2);
    }
}

/// Termwise congruence mod p lifts to the sum.
pub proof fn lemma_sum_mod(f: spec_fn(int) -> int, g: spec_fn(int) -> int, lo: int, hi: int)
    requires
        forall|x: int| lo <= x < hi ==> #[trigger] (f(x) % modulus()) == g(x) % modulus(),
    ensures
        sum(f, lo, hi) % modulus() == sum(g, lo, hi) % modulus(),
    decreases hi - lo,
{
    if lo < hi {
        lemma_sum_mod(f, g, lo, hi - 1);
        let p = modulus();
        lemma_add_mod_noop(sum(f, lo, hi - 1), f(hi - 1), p);
        lemma_add_mod_noop(sum(g, lo, hi - 1), g(hi - 1), p);
    }
}

// ---------------------------------------------------------------------------
// convolution as a sum
// ---------------------------------------------------------------------------

pub open spec fn conv_term(a: Seq<u32>, b: Seq<u32>, k: int) -> spec_fn(int) -> int {
    |i: int| coef(a, i) * coef(b, k - i)
}

pub proof fn lemma_conv_upto_sum(a: Seq<u32>, b: Seq<u32>, k: int, n: int)
    requires
        n >= 0,
    ensures
        conv_upto(a, b, k, n) == sum(conv_term(a, b, k), 0, n),
    decreases n,
{
    if n > 0 {
        lemma_conv_upto_sum(a, b, k, n - 1);
    }
}

/// A window that contains the support of the convolution terms.
pub open spec fn win(a: Seq<u32>, b: Seq<u32>, k: int) -> int {
    (if k >= 0 { k } else { -k }) + a.len() + b.len() + 1
}

/// `conv(a, b, k)` is the sum of its terms over any window `[-w, w)` with
/// `w >= win(a, b, k)`.
pub proof fn lemma_conv_as_sum(a: Seq<u32>, b: Seq<u32>, k: int, w: int)
    requires
        w >= win(a, b, k),
    ensures
        conv(a, b, k) == sum(conv_term(a, b, k), -w, w),
{
    lemma_conv_upto_sum(a, b, k, a.len() as int);
    let f = conv_term(a, b, k);
    assert forall|x: int| -w <= x < 0 implies #[trigger] f(x) == 0 by {
        lemma_mul_basics(coef(b, k - x));
    }
    assert forall|x: int| a.len() <= x < w implies #[trigger] f(x) == 0 by {
        lemma_mul_basics(coef(b, k - x));
    }
    lemma_sum_window(f, 0, a.len() as int, -w, w);
}

/// Multiplication is commutative.
pub proof fn lemma_conv_comm(a: Seq<u32>, b: Seq<u32>, k: int)
    ensures
        conv(a, b, k) == conv(b, a, k),
{
    let w = win(a, b, k) + win(b, a, k);
    lemma_conv_as_sum(a, b, k, w);
    lemma_conv_as_sum(b, a, k, w);
    let f = conv_term(a, b, k);
    let g = conv_term(b, a, k);
    lemma_sum_reflect(f, -w, w, k);
    // sum(|y| f(k - y), k - w + 1, k + w + 1) equals sum(g, -w, w) after windowing
    let h = |y: int| f(k - y);
    assert forall|y: int| #[trigger] h(y) == g(y) by {
        lemma_mul_is_commutative(coef(a, k - y), coef(b, y));
    }
    lemma_sum_ext(h, g, k - w + 1, k + w + 1);
    let lo = if k - w + 1 <= -w { k - w + 1 } else { -w };
    let hi = if k + w + 1 >= w { k + w + 1 } else { w };
    let big = 2 * w + 2 + (if k >= 0 { k } else { -k });
    assert forall|y: int| !(0 <= y < b.len()) implies #[trigger] g(y) == 0 by {
        lemma_mul_basics(coef(a, k - y));
    }
    lemma_sum_window(g, 0, b.len() as int, k - w + 1, k + w + 1);
    lemma_sum_window(g, 0, b.len() as int, -w, w);
}

/// The terms of `conv(mul_spec(b, c), ...)` agree mod p with the exact product.
proof fn lemma_mul_spec_mod(b: Seq<u32>, c: Seq<u32>, m: int)
    ensures
        coef(mul_spec(b, c), m) % modulus() == conv(b, c, m) % modulus(),
{
    lemma_mul_spec_coef(b, c, m);
    lemma_mod_twice(conv(b, c, m), modulus());
}

/// `conv(x, mul_spec(b, c), k) == sum_i x_i conv(b, c, k - i)  (mod p)`.
proof fn lemma_conv_right_product(x: Seq<u32>, b: Seq<u32>, c: Seq<u32>, k: int)
    ensures
        conv(x, mul_spec(b, c), k) % modulus() == sum(
            |i: int| coef(x, i) * conv(b, c, k - i),
            0,
            x.len() as int,
        ) % modulus(),
{
    let p = modulus();
    lemma_conv_upto_sum(x, mul_spec(b, c), k, x.len() as int);
    let f = conv_term(x, mul_spec(b, c), k);
    let g = |i: int| coef(x, i) * conv(b, c, k - i);
    assert forall|i: int| 0 <= i < x.len() implies #[trigger] (f(i) % p) == g(i) % p by {
        lemma_mul_spec_mod(b, c, k - i);
        lemma_mul_mod_noop_right(coef(x, i), coef(mul_spec(b, c), k - i), p);
        lemma_mul_mod_noop_right(coef(x, i), conv(b, c, k - i), p);
    }
    lemma_sum_mod(f, g, 0, x.len() as int);
}

/// `sum_i x_i * sum_j y_j z_{k-i-j}` written as a double sum over a window.
proof fn lemma_outer_as_double(
    x: Seq<u32>,
    y: Seq<u32>,
    z: Seq<u32>,
    k: int,
    w: int,
    t: spec_fn(int, int) -> int,
)
    requires
        w >= win(y, z, k) + x.len() + 1,
        w >= x.len() + 1,
        forall|i: int, j: int| #[trigger] t(i, j) == coef(x, i) * (coef(y, j) * coef(z, k - i - j)),
    ensures
        sum(|i: int| coef(x, i) * conv(y, z, k - i), 0, x.len() as int) == sum(row_sums(t, -w, w), -w, w),
{
    let outer = |i: int| coef(x, i) * conv(y, z, k - i);
    assert forall|i: int| -w <= i < w implies #[trigger] outer(i) == row_sums(t, -w, w)(i) by {
        if 0 <= i < x.len() {
            assert(w >= win(y, z, k - i));
            lemma_conv_as_sum(y, z, k - i, w);
            lemma_sum_scale(conv_term(y, z, k - i), coef(x, i), -w, w);
            assert forall|j: int| -w <= j < w implies #[trigger] row(t, i)(j) == coef(x, i) * conv_term(y, z, k - i)(j) by {
                assert(k - i - j == (k - i) - j);
            }
            lemma_sum_ext(row(t, i), |j: int| coef(x, i) * conv_term(y, z, k - i)(j), -w, w);
        } else {
            lemma_mul_basics(conv(y, z, k - i));
            assert forall|j: int| -w <= j < w implies #[trigger] row(t, i)(j) == 0 by {
                lemma_mul_basics(coef(y, j) * coef(z, k - i - j));
            }
            lemma_sum_zero(row(t, i), -w, w);
        }
    }
    assert forall|i: int| (-w <= i < 0 || x.len() <= i < w) implies #[trigger] outer(i) == 0 by {
        lemma_mul_basics(conv(y, z, k - i));
    }
    lemma_sum_window(outer, 0, x.len() as int, -w, w);
    lemma_sum_ext(outer, row_sums(t, -w, w), -w, w);
}

/// Multiplication is associative: `(a * b) * c == a * (b * c)`.
pub proof fn lemma_conv_assoc(a: Seq<u32>, b: Seq<u32>, c: Seq<u32>, k: int)
    ensures
        conv(mul_spec(a, b), c, k) % modulus() == conv(a, mul_spec(b, c), k) % modulus(),
{
    let w = win(a, b, k) + win(b, c, k) + win(a, c, k) + 2 * (a.len() + b.len() + c.len()) + 4;
    let t = |i: int, j: int| coef(a, i) * (coef(b, j) * coef(c, k - i - j));
    let u = |m: int, i: int| coef(c, m) * (coef(a, i) * coef(b, k - m - i));
    // right side
    lemma_conv_right_product(a, b, c, k);
    lemma_outer_as_double(a, b, c, k, w, t);
    // left side, via commutativity
    lemma_conv_comm(mul_spec(a, b), c, k);
    lemma_conv_right_product(c, a, b, k);
    lemma_outer_as_double(c, a, b, k, w, u);
    lemma_sum_swap(u, -w, w, -w, w);
    // for fixed i, the column sum of u equals the row sum of t
    assert forall|i: int| -w <= i < w implies #[trigger] col_sums(u, -w, w)(i) == row_sums(t, -w, w)(i) by {
        let um = col(u, i);
        let tj = row(t, i);
        lemma_sum_reflect(um, -w, w, k - i);
        let refl = |j: int| um(k - i - j);
        assert forall|j: int| #[trigger] refl(j) == tj(j) by {
            let x = coef(a, i);
            let y = coef(b, j);
            let z = coef(c, k - i - j);
            assert(k - (k - i - j) - i == j);
            assert(refl(j) == z * (x * y));
            assert(z * (x * y) == x * (y * z)) by (nonlinear_arith);
        }
        lemma_sum_ext(refl, tj, k - i - w + 1, k - i + w + 1);
        if 0 <= i < a.len() {
            assert forall|j: int| !(0 <= j < b.len()) implies #[trigger] tj(j) == 0 by {
                assert(coef(b, j) == 0);
                lemma_mul_basics(coef(c, k - i - j));
                lemma_mul_basics(coef(a, i));
            }
            lemma_sum_window(tj, 0, b.len() as int, k - i - w + 1, k - i + w + 1);
            lemma_sum_window(tj, 0, b.len() as int, -w, w);
        } else {
            assert forall|j: int| #[trigger] tj(j) == 0 by {
                lemma_mul_basics(coef(b, j) * coef(c, k - i - j));
            }
            lemma_sum_zero(tj, k - i - w + 1, k - i + w + 1);
            lemma_sum_zero(tj, -w, w);
        }
    }
    lemma_sum_ext(col_sums(u, -w, w), row_sums(t, -w, w), -w, w);
}


/// A function supported on the single point `x0` sums to `f(x0)`.
pub proof fn lemma_sum_single(f: spec_fn(int) -> int, lo: int, hi: int, x0: int)
    requires
        lo <= x0 < hi,
        forall|x: int| lo <= x < hi && x != x0 ==> #[trigger] f(x) == 0,
    ensures
        sum(f, lo, hi) == f(x0),
{
    lemma_sum_split(f, lo, x0, hi);
    lemma_sum_split(f, x0, x0 + 1, hi);
    lemma_sum_zero(f, lo, x0);
    lemma_sum_zero(f, x0 + 1, hi);
    reveal_with_fuel(sum, 2);
}

/// Coefficient `k` of a product only depends on the factors' coefficients
/// `0..=k`, and only mod p.
pub proof fn lemma_conv_prefix(a1: Seq<u32>, a2: Seq<u32>, b1: Seq<u32>, b2: Seq<u32>, k: int)
    requires
        forall|i: int| 0 <= i <= k ==> #[trigger] (coef(a1, i) % modulus()) == coef(a2, i) % modulus(),
        forall|i: int| 0 <= i <= k ==> #[trigger] (coef(b1, i) % modulus()) == coef(b2, i) % modulus(),
    ensures
        conv(a1, b1, k) % modulus() == conv(a2, b2, k) % modulus(),
{
    let p = modulus();
    let w = win(a1, b1, k) + win(a2, b2, k);
    lemma_conv_as_sum(a1, b1, k, w);
    lemma_conv_as_sum(a2, b2, k, w);
    let f = conv_term(a1, b1, k);
    let g = conv_term(a2, b2, k);
    assert forall|i: int| -w <= i < w implies #[trigger] (f(i) % p) == g(i) % p by {
        if 0 <= i <= k {
            assert(0 <= k - i <= k);
            lemma_mul_mod_noop(coef(a1, i), coef(b1, k - i), p);
            lemma_mul_mod_noop(coef(a2, i), coef(b2, k - i), p);
        } else if i < 0 {
            lemma_mul_basics(coef(b1, k - i));
            lemma_mul_basics(coef(b2, k - i));
        } else {
            lemma_mul_basics(coef(a1, i));
            lemma_mul_basics(coef(a2, i));
        }
    }
    lemma_sum_mod(f, g, -w, w);
}

pub open spec fn delta(k: int) -> int {
    if k == 0 {
        1
    } else {
        0
    }
}

/// Multiplying by a series that is one up to index `k` fixes coefficient `k`.
pub proof fn lemma_conv_unit(x: Seq<u32>, e: Seq<u32>, k: int)
    requires
        k >= 0,
        forall|j: int| 0 <= j <= k ==> #[trigger] (coef(e, j) % modulus()) == delta(j),
    ensures
        conv(x, e, k) % modulus() == coef(x, k) % modulus(),
{
    let p = modulus();
    let w = win(x, e, k);
    lemma_conv_as_sum(x, e, k, w);
    let f = conv_term(x, e, k);
    let g = |i: int| if i == k { coef(x, k) } else { 0 };
    assert forall|i: int| -w <= i < w implies #[trigger] (f(i) % p) == g(i) % p by {
        if 0 <= i <= k {
            lemma_mul_mod_noop_right(coef(x, i), coef(e, k - i), p);
            if i == k {
                lemma_mul_basics(coef(x, i));
            } else {
                lemma_mul_basics(coef(x, i));
            }
        } else if i < 0 {
            lemma_mul_basics(coef(e, k - i));
        } else {
            lemma_mul_basics(coef(x, i));
        }
    }
    lemma_sum_mod(f, g, -w, w);
    lemma_sum_single(g, -w, w, k);
}

/// One Newton step for series inversion: if `f * g == 1 (mod x^m)` and
/// `h == 2 - f * g (mod x^t)` with `t <= 2m`, then `f * (g * h) == 1 (mod x^t)`.
pub proof fn lemma_newton(f: Seq<u32>, g: Seq<u32>, h: Seq<u32>, m: int, t: int, k: int)
    requires
        1 <= m,
        0 <= k < t <= 2 * m,
        forall|j: int| 0 <= j < m ==> #[trigger] (conv(f, g, j) % modulus()) == delta(j),
        forall|j: int| 0 <= j < t ==> #[trigger] (coef(h, j) % modulus()) == (2 * delta(j) - conv(f, g, j)) % modulus(),
    ensures
        conv(f, mul_spec(g, h), k) % modulus() == delta(k),
{
    let p = modulus();
    let e = mul_spec(f, g);
    lemma_conv_assoc(f, g, h, k);
    // conv(e, h, k) with coef(e, j) == conv(f, g, j) (mod p)
    let w = win(e, h, k);
    lemma_conv_as_sum(e, h, k, w);
    let term = conv_term(e, h, k);
    let simple = |j: int| if j == 0 {
        (2 * delta(k) - conv(f, g, k))
    } else if j == k {
        conv(f, g, k)
    } else {
        0
    };
    assert forall|j: int| -w <= j < w implies #[trigger] (term(j) % p) == simple(j) % p by {
        lemma_mul_spec_coef(f, g, j);
        lemma_mod_twice(conv(f, g, j), p);
        if 0 <= j <= k {
            let i = k - j;
            lemma_mul_spec_coef(f, g, i);
            lemma_mul_mod_noop(coef(e, j), coef(h, i), p);
            if j < m {
                // coef(e, j) == delta(j)
                assert(coef(e, j) % p == delta(j));
                lemma_mul_mod_noop(delta(j), 2 * delta(i) - conv(f, g, i), p);
                lemma_mod_twice(2 * delta(i) - conv(f, g, i), p);
                if j == 0 {
                    lemma_mul_basics(2 * delta(i) - conv(f, g, i));
                    lemma_mod_twice(delta(j), p);
                } else {
                    lemma_mul_basics(2 * delta(i) - conv(f, g, i));
                    if j == k {
                        // j == k >= 1 and j < m: conv(f, g, k) == 0 (mod p)
                        assert(conv(f, g, k) % p == 0);
                    }
                }
                // term(j) == delta(j) * (2 delta(i) - conv(f,g,i)) (mod p)
                if j == 0 {
                    assert(i == k);
                } else if j == k {
                    assert(i == 0);
                    assert(delta(j) == 0);
                    lemma_mul_basics(2 * delta(i) - conv(f, g, i));
                }
            } else {
                // j >= m, so i = k - j < m and h_i == delta(i) (mod p)
                assert(i < m);
                assert(conv(f, g, i) % p == delta(i));
                lemma_sub_mod_noop(2 * delta(i), conv(f, g, i), p);
                assert(coef(h, i) % p == (2 * delta(i) - delta(i)) % p) by {
                    lemma_mod_twice(2 * delta(i), p);
                    lemma_sub_mod_noop(2 * delta(i), delta(i), p);
                    lemma_small_mod(delta(i) as nat, p as nat);
                }
                lemma_mul_mod_noop(conv(f, g, j), delta(i), p);
                lemma_mod_twice(conv(f, g, j), p);
                lemma_small_mod(delta(i) as nat, p as nat);
                if j == k {
                    lemma_mul_basics(conv(f, g, j));
                } else {
                    lemma_mul_basics(conv(f, g, j));
                }
            }
        } else if j < 0 {
            lemma_mul_basics(coef(h, k - j));
        } else {
            lemma_mul_basics(coef(e, j));
        }
    }
    lemma_sum_mod(term, simple, -w, w);
    if k == 0 {
        lemma_sum_single(simple, -w, w, 0);
        assert(simple(0) == 2 - conv(f, g, 0));
        assert(conv(f, g, 0) % p == 1);
        lemma_sub_mod_noop(2, conv(f, g, 0), p);
    } else {
        lemma_sum_split(simple, -w, 1, w);
        lemma_sum_single(simple, -w, 1, 0);
        lemma_sum_single(simple, 1, w, k);
        lemma_add_mod_noop(2 * delta(k) - conv(f, g, k), conv(f, g, k), p);
    }
}

/// `f` read backwards over the first `n` slots.
pub open spec fn rev_seq(f: Seq<u32>, n: int) -> Seq<u32> {
    Seq::new(n as nat, |i: int| coef(f, n - 1 - i) as u32)
}

/// Reversal turns the top coefficients of a product into the bottom ones:
/// coefficient `nq - 1 + nb - 1 - i` of `q * b` is coefficient `i` of
/// `rev(q) * rev(b)`.
pub proof fn lemma_conv_rev(q: Seq<u32>, b: Seq<u32>, nq: int, nb: int, i: int)
    requires
        q.len() <= nq,
        b.len() <= nb,
        nq >= 0,
        nb >= 0,
    ensures
        conv(q, b, nq - 1 + nb - 1 - i) == conv(rev_seq(q, nq), rev_seq(b, nb), i),
{
    let k = nq - 1 + nb - 1 - i;
    let rq = rev_seq(q, nq);
    let rb = rev_seq(b, nb);
    assert forall|s: int| #[trigger] coef(rq, s) == coef(q, nq - 1 - s) by {
        if 0 <= s < nq {
        } else {
            assert(nq - 1 - s < 0 || nq - 1 - s >= q.len());
        }
    }
    assert forall|s: int| #[trigger] coef(rb, s) == coef(b, nb - 1 - s) by {
        if 0 <= s < nb {
        } else {
            assert(nb - 1 - s < 0 || nb - 1 - s >= b.len());
        }
    }
    let w = win(q, b, k) + win(rq, rb, i) + 2 * (nq + nb) + 2;
    lemma_conv_as_sum(q, b, k, w);
    lemma_conv_as_sum(rq, rb, i, w);
    let f = conv_term(q, b, k);
    let g = conv_term(rq, rb, i);
    lemma_sum_reflect(f, -w, w, nq - 1);
    let h = |s: int| f(nq - 1 - s);
    assert forall|s: int| #[trigger] h(s) == g(s) by {
        assert(coef(rq, s) == coef(q, nq - 1 - s));
        assert(coef(rb, i - s) == coef(b, nb - 1 - (i - s)));
        assert(k - (nq - 1 - s) == nb - 1 - (i - s));
    }
    lemma_sum_ext(h, g, nq - w, nq + w);
    assert forall|s: int| !(0 <= s < rq.len()) implies #[trigger] g(s) == 0 by {
        lemma_mul_basics(coef(rb, i - s));
    }
    lemma_sum_window(g, 0, rq.len() as int, nq - w, nq + w);
    lemma_sum_window(g, 0, rq.len() as int, -w, w);
}


/// The reversal of a canonical sequence over its own length.
pub proof fn lemma_rev_seq_facts(f: Seq<u32>)
    requires
        crate::poly_spec::canon(f),
    ensures
        crate::poly_spec::reduced(rev_seq(f, f.len() as int)),
        forall|x: int| #[trigger] coef(rev_seq(f, f.len() as int), x) == coef(f, f.len() - 1 - x),
        f.len() > 0 ==> coef(rev_seq(f, f.len() as int), 0) != 0,
{
    let n = f.len() as int;
    let rf = rev_seq(f, n);
    assert forall|x: int| #[trigger] coef(rf, x) == coef(f, n - 1 - x) by {
    }
}

} // verus!
