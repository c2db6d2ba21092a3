//! The number-theoretic transform over KoalaBear: bit reversal, the
//! butterfly identity of the iterative transform, and the facts about the
//! 2^24-th roots of unity it uses.
use vstd::arithmetic::div_mod::*;
use vstd::arithmetic::mul::*;
use vstd::arithmetic::power::*;
use vstd::arithmetic::power2::{lemma2_to64, lemma_pow2, lemma_pow2_adds, lemma_pow2_pos, lemma_pow2_unfold, pow2};
use vstd::prelude::*;

use crate::field::modulus;
use crate::poly_algebra::{
    col, col_sums, row, row_sums, lemma_sum_ext, lemma_sum_mod, lemma_sum_scale, lemma_sum_shift, lemma_sum_split, sum,
};
use crate::poly_spec::coef;

verus! {

// ---------------------------------------------------------------------------
// bit reversal
// ---------------------------------------------------------------------------

/// The lowest `j` bits of `c`, reversed.
pub open spec fn rev_bits(c: int, j: nat) -> int
    decreases j,
{
    if j == 0 {
        0
    } else {
        (c % 2) * pow2((j - 1) as nat) + rev_bits(c / 2, (j - 1) as nat)
    }
}

pub proof fn lemma_rev_bound(c: int, j: nat)
    requires
        c >= 0,
    ensures
        0 <= rev_bits(c, j) < pow2(j),
    decreases j,
{
    if j == 0 {
        lemma_pow2(0);
        reveal(pow);
    } else {
        lemma_rev_bound(c / 2, (j - 1) as nat);
        lemma_pow2_unfold(j);
        lemma_pow2_pos((j - 1) as nat);
        assert(0 <= c % 2 <= 1);
        assert((c % 2) * pow2((j - 1) as nat) <= pow2((j - 1) as nat)) by (nonlinear_arith)
            requires
                0 <= c % 2 <= 1,
                pow2((j - 1) as nat) > 0,
        ;
        assert((c % 2) * pow2((j - 1) as nat) >= 0) by (nonlinear_arith)
            requires
                0 <= c % 2 <= 1,
                pow2((j - 1) as nat) > 0,
        ;
    }
}

pub proof fn lemma_rev_even_odd(c: int, j: nat)
    requires
        c >= 0,
    ensures
        rev_bits(2 * c, j + 1) == rev_bits(c, j),
        rev_bits(2 * c + 1, j + 1) == rev_bits(c, j) + pow2(j),
{
    assert((2 * c) % 2 == 0 && (2 * c) / 2 == c);
    assert((2 * c + 1) % 2 == 1 && (2 * c + 1) / 2 == c);
}

/// Reading the top bit first: `rev(c, j+1) == 2 * rev(c mod 2^j, j) + c / 2^j`.
proof fn lemma_rev_top(c: int, j: nat)
    requires
        0 <= c < pow2(j + 1),
    ensures
        rev_bits(c, j + 1) == 2 * rev_bits(c % (pow2(j) as int), j) + c / (pow2(j) as int),
    decreases j,
{
    lemma_pow2_pos(j);
    lemma_pow2_unfold(j + 1);
    if j == 0 {
        lemma_pow2(0);
        reveal(pow);
        assert(pow2(0) == 1);
        assert(c % 1 == 0);
        assert(c / 1 == c);
    } else {
        let jm = (j - 1) as nat;
        let pj = pow2(j) as int;
        let pjm = pow2(jm) as int;
        lemma_pow2_unfold(j);
        lemma_pow2_pos(jm);
        assert(c / 2 < pow2(j)) by {
            lemma_div_is_ordered(c, 2 * pj - 1, 2);
        }
        lemma_rev_top(c / 2, jm);
        // (c / 2) % 2^(j-1) == (c % 2^j) / 2 and (c/2) / 2^(j-1) == c / 2^j
        lemma_div_denominator(c, 2, pjm);
        lemma_mod_breakdown(c, 2, pjm);
        let cm = c % pj;
        assert(cm % 2 == c % 2) by {
            lemma_mod_mod(c, 2, pjm);
        }
        assert(cm / 2 == (c / 2) % pjm) by {
            lemma_mod_breakdown(c, 2, pjm);
            lemma_fundamental_div_mod(c, 2);
            lemma_fundamental_div_mod(cm, 2);
            lemma_mod_bound(c, pj);
            // c % (2 * pjm) == 2 * ((c/2) % pjm) + c % 2
            lemma_fundamental_div_mod_converse(cm, 2, (c / 2) % pjm, c % 2);
        }
        assert(rev_bits(cm, j) == (cm % 2) * pjm + rev_bits(cm / 2, jm));
        assert(pj == 2 * pjm);
        assert(c / 2 / pjm == c / pj);
        assert(rev_bits(c, j + 1) == (c % 2) * pj + rev_bits(c / 2, j));
        assert(rev_bits(c / 2, j) == 2 * rev_bits((c / 2) % pjm, jm) + (c / 2) / pjm);
        assert((c % 2) * pj == 2 * ((c % 2) * pjm)) by (nonlinear_arith)
            requires
                pj == 2 * pjm,
        ;
    }
}

/// Bit reversal is an involution on `[0, 2^j)`.
pub proof fn lemma_rev_involution(c: int, j: nat)
    requires
        0 <= c < pow2(j),
    ensures
        rev_bits(rev_bits(c, j), j) == c,
    decreases j,
{
    if j > 0 {
        let jm = (j - 1) as nat;
        lemma_pow2_unfold(j);
        lemma_pow2_pos(jm);
        let pjm = pow2(jm) as int;
        assert(c / 2 < pjm) by {
            lemma_div_is_ordered(c, 2 * pjm - 1, 2);
        }
        lemma_rev_involution(c / 2, jm);
        let r = rev_bits(c, j);
        lemma_rev_bound(c, j);
        lemma_rev_bound(c / 2, jm);
        lemma_rev_top(r, jm);
        let low = rev_bits(c / 2, jm);
        assert(r == (c % 2) * pjm + low);
        // r % 2^(j-1) == low and r / 2^(j-1) == c % 2
        lemma_fundamental_div_mod_converse(r, pjm, c % 2, low);
        lemma_fundamental_div_mod(c, 2);
    } else {
        lemma_pow2(0);
        reveal(pow);
    }
}

/// The bit-reversed increment performed by the swap loop of the transform.
pub open spec fn carry_rev(j: int, e: int) -> int
    decreases e + 1,
{
    if e < 0 {
        j
    } else if (j / (pow2(e as nat) as int)) % 2 == 1 {
        carry_rev(j - pow2(e as nat), e - 1)
    } else {
        j + pow2(e as nat)
    }
}

/// The bit-reversed increment turns `rev(i)` into `rev(i + 1)`.
pub proof fn lemma_carry_rev(i: int, l: nat)
    requires
        l >= 1,
        0 <= i,
        i + 1 < pow2(l),
    ensures
        carry_rev(rev_bits(i, l), l - 1) == rev_bits(i + 1, l),
    decreases l,
{
    let lm = (l - 1) as nat;
    let p = pow2(lm) as int;
    lemma_pow2_unfold(l);
    lemma_pow2_pos(lm);
    lemma_rev_bound(i / 2, lm);
    let low = rev_bits(i / 2, lm);
    let r = rev_bits(i, l);
    assert(r == (i % 2) * p + low);
    lemma_fundamental_div_mod_converse(r, p, i % 2, low);
    assert(r / p == i % 2);
    if i % 2 == 0 {
        assert((i + 1) % 2 == 1 && (i + 1) / 2 == i / 2);
        lemma_mul_basics(p);
    } else {
        assert((i + 1) % 2 == 0 && (i + 1) / 2 == i / 2 + 1);
        lemma_mul_basics(p);
        assert(r - p == low);
        if l == 1 {
            assert(i + 1 < 2) by {
                lemma_pow2(1);
                reveal_with_fuel(pow, 2);
            }
        } else {
            assert(i / 2 + 1 < pow2(lm)) by {
                lemma_div_is_ordered(i + 1, 2 * p - 1, 2);
            }
            lemma_carry_rev(i / 2, lm);
        }
    }
}

// ---------------------------------------------------------------------------
// roots of unity
// ---------------------------------------------------------------------------

/// A primitive 2^24-th root candidate: its 2^23-th power is -1.
pub open spec fn good_root(rt: int) -> bool {
    pow(rt, pow2(23)) % modulus() == modulus() - 1
}

/// The 2^s-th root of unity derived from `rt`.
pub open spec fn root_pow(rt: int, s: nat) -> int {
    pow(rt, pow2((24 - s) as nat))
}

/// `w_s^(2^(s-1)) == -1` and `w_{s-1} == w_s^2`.
pub proof fn lemma_root_pow(rt: int, s: nat)
    requires
        good_root(rt),
        1 <= s <= 24,
    ensures
        pow(root_pow(rt, s), pow2((s - 1) as nat)) % modulus() == modulus() - 1,
        root_pow(rt, (s - 1) as nat) == pow(root_pow(rt, s), 2),
{
    let a = pow2((24 - s) as nat);
    let b = pow2((s - 1) as nat);
    lemma_pow_multiplies(rt, a, b);
    lemma_pow2_adds((24 - s) as nat, (s - 1) as nat);
    assert((24 - s) as nat + (s - 1) as nat == 23);
    lemma_pow_multiplies(rt, a, 2);
    lemma_pow2_unfold((24 - s + 1) as nat);
    assert(((24 - (s - 1)) as nat) == (24 - s + 1) as nat);
    lemma_mul_is_commutative(a as int, 2);
}

// ---------------------------------------------------------------------------
// the butterfly identity
// ---------------------------------------------------------------------------

/// `sum_{m < 2h} f(m) == sum_{m < h} f(2m) + sum_{m < h} f(2m + 1)`.
pub proof fn lemma_sum_even_odd(f: spec_fn(int) -> int, h: int)
    requires
        h >= 0,
    ensures
        sum(f, 0, 2 * h) == sum(|m: int| f(2 * m), 0, h) + sum(|m: int| f(2 * m + 1), 0, h),
    decreases h,
{
    if h > 0 {
        lemma_sum_even_odd(f, h - 1);
        assert(sum(f, 0, 2 * h) == sum(f, 0, 2 * h - 1) + f(2 * h - 1));
        assert(sum(f, 0, 2 * h - 1) == sum(f, 0, 2 * h - 2) + f(2 * h - 2));
        assert(2 * (h - 1) == 2 * h - 2);
    }
}

/// The term of the stage-`s` sub-transform at chunk `c`.
pub open spec fn level_term(a: Seq<u32>, rt: int, l: nat, s: nat, c: int, k: int) -> spec_fn(int) -> int {
    |m: int| coef(a, rev_bits(c, (l - s) as nat) + m * pow2((l - s) as nat)) * pow(root_pow(rt, s), (m * k) as nat)
}

/// Value at position `k` of chunk `c` after stage `s` of the transform of `a`.
pub open spec fn level(a: Seq<u32>, rt: int, l: nat, s: nat, c: int, k: int) -> int {
    sum(level_term(a, rt, l, s, c, k), 0, pow2(s) as int) % modulus()
}

proof fn lemma_pow_mod_one(x: int, e: nat)
    requires
        x % modulus() == 1,
    ensures
        pow(x, e) % modulus() == 1,
{
    lemma_pow_mod_noop(x, e, modulus());
    lemma1_pow(e);
}

/// The butterfly: stage `s` from the two halves produced by stage `s - 1`.
#[verifier::rlimit(60)]
#[verifier::spinoff_prover]
pub proof fn lemma_butterfly(a: Seq<u32>, rt: int, l: nat, s: nat, c: int, k: int)
    requires
        good_root(rt),
        1 <= s <= l <= 24,
        0 <= c,
        0 <= k < pow2((s - 1) as nat),
    ensures
        level(a, rt, l, s, c, k) == (level(a, rt, l, (s - 1) as nat, 2 * c, k) + (pow(root_pow(rt, s), k as nat) % modulus()) * level(
            a,
            rt,
            l,
            (s - 1) as nat,
            2 * c + 1,
            k,
        )) % modulus(),
        level(a, rt, l, s, c, k + pow2((s - 1) as nat)) == (level(a, rt, l, (s - 1) as nat, 2 * c, k) - (pow(root_pow(rt, s), k as nat) % modulus()) * level(
            a,
            rt,
            l,
            (s - 1) as nat,
            2 * c + 1,
            k,
        )) % modulus(),
{
    let p = modulus();
    let sm = (s - 1) as nat;
    let h = pow2(sm) as int;
    let d = pow2((l - s) as nat) as int;
    let r = rev_bits(c, (l - s) as nat);
    let w = root_pow(rt, s);
    let w2 = root_pow(rt, sm);
    lemma_root_pow(rt, s);
    lemma_pow2_unfold(s);
    lemma_pow2_pos(sm);
    lemma_pow2_pos((l - s) as nat);
    assert(((l - sm) as nat) == (l - s + 1) as nat);
    lemma_pow2_unfold((l - s + 1) as nat);
    lemma_rev_even_odd(c, (l - s) as nat);
    let wk = pow(w, k as nat);
    let wh = pow(w, h as nat);
    assert(wh % p == p - 1);
    // w2^h == 1 (mod p)
    assert(pow(w2, h as nat) % p == 1) by {
        lemma_pow_multiplies(w, 2, h as nat);
        lemma_pow_multiplies(w, h as nat, 2);
        assert(2 * h == h * 2);
        lemma_pow_mod_noop(wh, 2, p);
        reveal_with_fuel(pow, 3);
        assert(pow(wh % p, 2) == (p - 1) * ((p - 1) * 1));
        assert(((p - 1) * ((p - 1) * 1)) % p == 1) by (nonlinear_arith)
            requires
                p == 2130706433,
        ;
    }
    let even0 = level_term(a, rt, l, sm, 2 * c, k);
    let odd0 = level_term(a, rt, l, sm, 2 * c + 1, k);
    // both target positions: k and k + h
    let kk = k + h;
    let f = level_term(a, rt, l, s, c, k);
    let g = level_term(a, rt, l, s, c, kk);
    lemma_sum_even_odd(f, h);
    lemma_sum_even_odd(g, h);
    // even terms
    assert forall|m: int| 0 <= m < h implies #[trigger] f(2 * m) == even0(m) by {
        assert(r + (2 * m) * d == rev_bits(2 * c, (l - sm) as nat) + m * pow2((l - sm) as nat)) by (nonlinear_arith)
            requires
                rev_bits(2 * c, (l - sm) as nat) == r,
                pow2((l - sm) as nat) == 2 * d,
        ;
        lemma_pow_multiplies(w, 2, (m * k) as nat);
        assert((2 * m) * k == 2 * (m * k)) by (nonlinear_arith);
        assert(m * k >= 0) by (nonlinear_arith)
            requires
                m >= 0,
                k >= 0,
        ;
    }
    assert forall|m: int| 0 <= m < h implies #[trigger] (g(2 * m) % p) == even0(m) % p by {
        assert(r + (2 * m) * d == rev_bits(2 * c, (l - sm) as nat) + m * pow2((l - sm) as nat)) by (nonlinear_arith)
            requires
                rev_bits(2 * c, (l - sm) as nat) == r,
                pow2((l - sm) as nat) == 2 * d,
        ;
        assert(m * k >= 0 && m * h >= 0) by (nonlinear_arith)
            requires
                m >= 0,
                k >= 0,
                h >= 0,
        ;
        assert((2 * m) * kk == 2 * (m * k + m * h)) by (nonlinear_arith)
            requires
                kk == k + h,
        ;
        lemma_pow_multiplies(w, 2, (m * k + m * h) as nat);
        lemma_pow_adds(w2, (m * k) as nat, (m * h) as nat);
        lemma_pow_multiplies(w2, h as nat, m as nat);
        assert(h * m == m * h) by (nonlinear_arith);
        lemma_pow_mod_one(pow(w2, h as nat), m as nat);
        lemma_pow_mod_noop(pow(w2, h as nat), m as nat, p);
        let cf = coef(a, r + (2 * m) * d);
        let x = pow(w2, (m * k) as nat);
        let y = pow(w2, (m * h) as nat);
        assert(y % p == 1);
        lemma_mul_mod_noop_right(x, y, p);
        lemma_mul_basics(x);
        lemma_mul_is_associative(cf, x, y);
        lemma_mul_mod_noop_right(cf, x * y, p);
        lemma_mul_mod_noop_right(cf, x, p);
    }
    // odd terms
    assert forall|m: int| 0 <= m < h implies #[trigger] f(2 * m + 1) == wk * odd0(m) by {
        assert(r + (2 * m + 1) * d == rev_bits(2 * c + 1, (l - sm) as nat) + m * pow2((l - sm) as nat)) by (nonlinear_arith)
            requires
                rev_bits(2 * c + 1, (l - sm) as nat) == r + d,
                pow2((l - sm) as nat) == 2 * d,
        ;
        assert(m * k >= 0) by (nonlinear_arith)
            requires
                m >= 0,
                k >= 0,
        ;
        assert((2 * m + 1) * k == 2 * (m * k) + k) by (nonlinear_arith);
        lemma_pow_adds(w, (2 * (m * k)) as nat, k as nat);
        lemma_pow_multiplies(w, 2, (m * k) as nat);
        let cf = coef(a, r + (2 * m + 1) * d);
        let x = pow(w2, (m * k) as nat);
        assert(cf * (x * wk) == wk * (cf * x)) by (nonlinear_arith);
    }
    assert forall|m: int| 0 <= m < h implies #[trigger] (g(2 * m + 1) % p) == ((p - 1) * (wk * odd0(m))) % p by {
        assert(r + (2 * m + 1) * d == rev_bits(2 * c + 1, (l - sm) as nat) + m * pow2((l - sm) as nat)) by (nonlinear_arith)
            requires
                rev_bits(2 * c + 1, (l - sm) as nat) == r + d,
                pow2((l - sm) as nat) == 2 * d,
        ;
        assert(m * k >= 0 && m * h >= 0) by (nonlinear_arith)
            requires
                m >= 0,
                k >= 0,
                h >= 0,
        ;
        assert((2 * m + 1) * kk == 2 * (m * k + m * h) + k + h) by (nonlinear_arith)
            requires
                kk == k + h,
        ;
        lemma_pow_adds(w, (2 * (m * k + m * h)) as nat, (k + h) as nat);
        lemma_pow_adds(w, k as nat, h as nat);
        lemma_pow_multiplies(w, 2, (m * k + m * h) as nat);
        lemma_pow_adds(w2, (m * k) as nat, (m * h) as nat);
        lemma_pow_multiplies(w2, h as nat, m as nat);
        assert(h * m == m * h) by (nonlinear_arith);
        lemma_pow_mod_one(pow(w2, h as nat), m as nat);
        let cf = coef(a, r + (2 * m + 1) * d);
        let x = pow(w2, (m * k) as nat);
        let y = pow(w2, (m * h) as nat);
        // g(2m+1) == cf * (x * y) * (wk * wh)
        assert(g(2 * m + 1) == cf * ((x * y) * (wk * wh)));
        assert(y % p == 1);
        assert(wh % p == p - 1);
        lemma_mod_congruent_product(cf, x, y, wk, wh, p);
    }
    let ev = |m: int| f(2 * m);
    let od = |m: int| f(2 * m + 1);
    lemma_sum_ext(ev, even0, 0, h);
    lemma_sum_ext(od, |m: int| wk * odd0(m), 0, h);
    lemma_sum_scale(odd0, wk, 0, h);
    lemma_sum_mod(|m: int| g(2 * m), even0, 0, h);
    lemma_sum_mod(|m: int| g(2 * m + 1), |m: int| (p - 1) * (wk * odd0(m)), 0, h);
    lemma_sum_scale(|m: int| wk * odd0(m), p - 1, 0, h);
    lemma_sum_ext(|m: int| (p - 1) * (wk * odd0(m)), |m: int| (p - 1) * (|m: int| wk * odd0(m))(m), 0, h);
    let se = sum(even0, 0, h);
    let so = sum(odd0, 0, h);
    assert(2 * h == pow2(s));
    // first output
    lemma_add_mod_noop(se, wk * so, p);
    lemma_mul_mod_noop_left(wk, so, p);
    lemma_mul_mod_noop_right(wk % p, so, p);
    lemma_add_mod_noop(se % p, (wk % p) * (so % p), p);
    lemma_mod_twice(se, p);
    lemma_add_mod_noop_right(se % p, (wk % p) * (so % p), p);
    lemma_add_mod_noop(se, (wk % p) * (so % p), p);
    // second output
    let sg_odd = sum(|m: int| g(2 * m + 1), 0, h);
    let sg_even = sum(|m: int| g(2 * m), 0, h);
    assert(sg_odd % p == ((p - 1) * (wk * so)) % p);
    assert(((p - 1) * (wk * so)) % p == (-(wk * so)) % p) by {
        assert((p - 1) * (wk * so) == -(wk * so) + p * (wk * so)) by (nonlinear_arith);
        lemma_mod_multiples_vanish(wk * so, -(wk * so), p);
    }
    lemma_add_mod_noop(sg_even, sg_odd, p);
    lemma_add_mod_noop(se, -(wk * so), p);
    assert(-(wk * so) % p == (-((wk % p) * (so % p))) % p) by {
        lemma_mul_mod_noop(wk, so, p);
        lemma_sub_mod_noop(0, wk * so, p);
        lemma_sub_mod_noop(0, (wk % p) * (so % p), p);
        lemma_mod_twice((wk % p) * (so % p), p);
    }
    lemma_sub_mod_noop(se, (wk % p) * (so % p), p);
    lemma_sub_mod_noop(se % p, (wk % p) * (so % p), p);
    lemma_mod_twice(se, p);
    lemma_sub_mod_noop_right(se % p, (wk % p) * (so % p), p);
    lemma_sub_mod_noop(se, (wk % p) * (so % p) % p, p);
    assert(se + -(wk * so) == se - wk * so);
}

proof fn lemma_mod_congruent_product(cf: int, x: int, y: int, wk: int, wh: int, p: int)
    requires
        p == modulus(),
        y % p == 1,
        wh % p == p - 1,
    ensures
        (cf * ((x * y) * (wk * wh))) % p == ((p - 1) * (wk * (cf * x))) % p,
{
    assert(cf * ((x * y) * (wk * wh)) == (cf * x * wk) * (y * wh)) by (nonlinear_arith);
    assert((p - 1) * (wk * (cf * x)) == (cf * x * wk) * (p - 1)) by (nonlinear_arith);
    lemma_mul_mod_noop_right(cf * x * wk, y * wh, p);
    lemma_mul_mod_noop(y, wh, p);
    assert(1 * (p - 1) == p - 1);
    lemma_small_mod((p - 1) as nat, p as nat);
    lemma_mul_mod_noop_right(cf * x * wk, p - 1, p);
}

/// `x^(2^(k+1)) == (x^(2^k))^2`.
proof fn lemma_pow2_square(x: int, k: nat)
    ensures
        pow(x, pow2(k + 1)) == pow(x, pow2(k)) * pow(x, pow2(k)),
{
    lemma_pow2_unfold(k + 1);
    lemma_pow_adds(x, pow2(k), pow2(k));
}

proof fn lemma_sq_step(k: nat, c: int, d: int)
    requires
        pow(1791270792int, pow2(k)) % modulus() == c,
        (c * c) % modulus() == d,
    ensures
        pow(1791270792int, pow2(k + 1)) % modulus() == d,
{
    lemma_pow2_square(1791270792int, k);
    lemma_mul_mod_noop(pow(1791270792int, pow2(k)), pow(1791270792int, pow2(k)), modulus());
}

/// The constant root of the library is a good root.
pub proof fn lemma_root_is_good()
    ensures
        good_root(1791270792int),
{
    lemma_pow2(0);
    reveal(pow);
    assert(pow2(0) == 1);
    lemma_pow1(1791270792int);
    lemma_small_mod(1791270792nat, 2130706433nat);
    assert(pow(1791270792int, pow2(0)) % modulus() == 1791270792int);
    assert((1791270792int * 1791270792int) % 2130706433int == 1760025929int) by (nonlinear_arith);
    lemma_sq_step(0, 1791270792, 1760025929);
    assert((1760025929int * 1760025929int) % 2130706433int == 542991299int) by (nonlinear_arith);
    lemma_sq_step(1, 1760025929, 542991299);
    assert((542991299int * 542991299int) % 2130706433int == 1213133211int) by (nonlinear_arith);
    lemma_sq_step(2, 542991299, 1213133211);
    assert((1213133211int * 1213133211int) % 2130706433int == 1364057261int) by (nonlinear_arith);
    lemma_sq_step(3, 1213133211, 1364057261);
    assert((1364057261int * 1364057261int) % 2130706433int == 339671193int) by (nonlinear_arith);
    lemma_sq_step(4, 1364057261, 339671193);
    assert((339671193int * 339671193int) % 2130706433int == 1816824389int) by (nonlinear_arith);
    lemma_sq_step(5, 339671193, 1816824389);
    assert((1816824389int * 1816824389int) % 2130706433int == 373019801int) by (nonlinear_arith);
    lemma_sq_step(6, 1816824389, 373019801);
    assert((373019801int * 373019801int) % 2130706433int == 1848593786int) by (nonlinear_arith);
    lemma_sq_step(7, 373019801, 1848593786);
    assert((1848593786int * 1848593786int) % 2130706433int == 1168510561int) by (nonlinear_arith);
    lemma_sq_step(8, 1848593786, 1168510561);
    assert((1168510561int * 1168510561int) % 2130706433int == 1047035213int) by (nonlinear_arith);
    lemma_sq_step(9, 1168510561, 1047035213);
    assert((1047035213int * 1047035213int) % 2130706433int == 809067698int) by (nonlinear_arith);
    lemma_sq_step(10, 1047035213, 809067698);
    assert((809067698int * 809067698int) % 2130706433int == 1989134074int) by (nonlinear_arith);
    lemma_sq_step(11, 809067698, 1989134074);
    assert((1989134074int * 1989134074int) % 2130706433int == 2000983452int) by (nonlinear_arith);
    lemma_sq_step(12, 1989134074, 2000983452);
    assert((2000983452int * 2000983452int) % 2130706433int == 860702919int) by (nonlinear_arith);
    lemma_sq_step(13, 2000983452, 860702919);
    assert((860702919int * 860702919int) % 2130706433int == 665670555int) by (nonlinear_arith);
    lemma_sq_step(14, 860702919, 665670555);
    assert((665670555int * 665670555int) % 2130706433int == 392596362int) by (nonlinear_arith);
    lemma_sq_step(15, 665670555, 392596362);
    assert((392596362int * 392596362int) % 2130706433int == 699882112int) by (nonlinear_arith);
    lemma_sq_step(16, 392596362, 699882112);
    assert((699882112int * 699882112int) % 2130706433int == 1548376985int) by (nonlinear_arith);
    lemma_sq_step(17, 699882112, 1548376985);
    assert((1548376985int * 1548376985int) % 2130706433int == 170455089int) by (nonlinear_arith);
    lemma_sq_step(18, 1548376985, 170455089);
    assert((170455089int * 170455089int) % 2130706433int == 148625052int) by (nonlinear_arith);
    lemma_sq_step(19, 170455089, 148625052);
    assert((148625052int * 148625052int) % 2130706433int == 1748172362int) by (nonlinear_arith);
    lemma_sq_step(20, 148625052, 1748172362);
    assert((1748172362int * 1748172362int) % 2130706433int == 2113994754int) by (nonlinear_arith);
    lemma_sq_step(21, 1748172362, 2113994754);
    assert((2113994754int * 2113994754int) % 2130706433int == 2130706432int) by (nonlinear_arith);
    lemma_sq_step(22, 2113994754, 2130706432);
}

proof fn lemma_pow_minus_one_odd(k: nat)
    ensures
        pow(-1, 2 * k + 1) == -1,
    decreases k,
{
    if k == 0 {
        reveal_with_fuel(pow, 2);
    } else {
        lemma_pow_minus_one_odd((k - 1) as nat);
        lemma_pow_adds(-1, (2 * (k - 1) + 1) as nat, 2);
        reveal_with_fuel(pow, 3);
        assert(2 * k + 1 == (2 * (k - 1) + 1) + 2);
    }
}

/// The inverse of a good root is a good root.
pub proof fn lemma_inverse_root_is_good(rt: int, e: nat)
    requires
        good_root(rt),
        e % 2 == 1,
    ensures
        good_root(pow(rt, e) % modulus()),
{
    let p = modulus();
    let t = pow2(23);
    lemma_pow_mod_noop(pow(rt, e), t, p);
    lemma_pow_multiplies(rt, e, t);
    lemma_pow_multiplies(rt, t, e);
    lemma_mul_is_commutative(e as int, t as int);
    lemma_pow_mod_noop(pow(rt, t), e, p);
    lemma_pow_mod_noop(-1, e, p);
    assert((-1int) % p == p - 1);
    lemma_pow_minus_one_odd(((e - 1) / 2) as nat);
    assert(2 * ((e - 1) / 2) + 1 == e);
}


/// The value at position `x` after stage `s` of the transform.
pub open spec fn at_level(a: Seq<u32>, rt: int, l: nat, s: nat, x: int) -> int {
    level(a, rt, l, s, x / (pow2(s) as int), x % (pow2(s) as int))
}

pub proof fn lemma_rev_zero(l: nat)
    ensures
        rev_bits(0, l) == 0,
    decreases l,
{
    if l > 0 {
        lemma_rev_zero((l - 1) as nat);
        assert(0int % 2 == 0 && 0int / 2 == 0);
        lemma_mul_basics(pow2((l - 1) as nat) as int);
    }
}

/// Stage zero is the bit-reversed input.
pub proof fn lemma_level_zero(a: Seq<u32>, rt: int, l: nat, x: int)
    requires
        0 <= x,
    ensures
        at_level(a, rt, l, 0, x) == coef(a, rev_bits(x, l)) % modulus(),
{
    lemma_pow2(0);
    reveal(pow);
    assert(pow2(0) == 1);
    assert(x / 1 == x && x % 1 == 0);
    let f = level_term(a, rt, l, 0, x, 0);
    assert(sum(f, 0, 1) == sum(f, 0, 0) + f(0));
    assert(f(0) == coef(a, rev_bits(x, l)) * pow(root_pow(rt, 0), 0));
    lemma_pow0(root_pow(rt, 0));
}

pub proof fn lemma_pow2_divides(s: nat, l: nat)
    requires
        s <= l,
    ensures
        (pow2(l) as int) % (pow2(s) as int) == 0,
{
    lemma_pow2_adds(s, (l - s) as nat);
    lemma_pow2_pos(s);
    lemma_mod_multiples_basic(pow2((l - s) as nat) as int, pow2(s) as int);
    lemma_mul_is_commutative(pow2((l - s) as nat) as int, pow2(s) as int);
}

pub proof fn lemma_small_div_mod(x: int, n: int)
    requires
        0 <= x < n,
    ensures
        x / n == 0,
        x % n == x,
{
    lemma_small_mod(x as nat, n as nat);
    lemma_basic_div(x, n);
}

/// The butterfly at absolute positions `start + i` and `start + half + i`.
pub proof fn lemma_butterfly_positions(a: Seq<u32>, rt: int, l: nat, s: nat, start: int, i: int)
    requires
        good_root(rt),
        1 <= s <= l <= 24,
        start >= 0,
        start % (pow2(s) as int) == 0,
        0 <= i < pow2((s - 1) as nat),
    ensures
        at_level(a, rt, l, s, start + i) == (at_level(a, rt, l, (s - 1) as nat, start + i) + (pow(root_pow(rt, s), i as nat) % modulus()) * at_level(
            a,
            rt,
            l,
            (s - 1) as nat,
            start + pow2((s - 1) as nat) + i,
        )) % modulus(),
        at_level(a, rt, l, s, start + pow2((s - 1) as nat) + i) == (at_level(a, rt, l, (s - 1) as nat, start + i) - (pow(root_pow(rt, s), i as nat) % modulus()) * at_level(
            a,
            rt,
            l,
            (s - 1) as nat,
            start + pow2((s - 1) as nat) + i,
        )) % modulus(),
{
    let len = pow2(s) as int;
    let h = pow2((s - 1) as nat) as int;
    lemma_pow2_unfold(s);
    lemma_pow2_pos((s - 1) as nat);
    lemma_fundamental_div_mod(start, len);
    let c = start / len;
    assert(start == c * len) by {
        lemma_mul_is_commutative(len, c);
    }
    assert(c >= 0) by {
        lemma_div_pos_is_pos(start, len);
    }
    // positions inside chunk c of size len, and chunks 2c, 2c+1 of size h
    assert(c * len == (2 * c) * h) by (nonlinear_arith)
        requires
            len == 2 * h,
    ;
    lemma_fundamental_div_mod_converse(start + i, len, c, i);
    lemma_fundamental_div_mod_converse(start + h + i, len, c, h + i);
    lemma_fundamental_div_mod_converse(start + i, h, 2 * c, i);
    assert(start + h + i == (2 * c + 1) * h + i) by (nonlinear_arith)
        requires
            start == (2 * c) * h,
    ;
    lemma_fundamental_div_mod_converse(start + h + i, h, 2 * c + 1, i);
    lemma_butterfly(a, rt, l, s, c, i);
}

/// `sum_{i < n} x_i w^(i k)`.
pub open spec fn dft_term(x: Seq<u32>, w: int, k: int) -> spec_fn(int) -> int {
    |i: int| coef(x, i) * pow(w, (i * k) as nat)
}

/// After the last stage, a position holds the plain transform.
pub proof fn lemma_level_full(a: Seq<u32>, rt: int, l: nat, k: int)
    requires
        k >= 0,
    ensures
        level(a, rt, l, l, 0, k) == sum(dft_term(a, root_pow(rt, l), k), 0, pow2(l) as int) % modulus(),
{
    lemma_rev_zero(0);
    lemma_pow2(0);
    reveal(pow);
    assert(pow2(0) == 1);
    assert forall|m: int| 0 <= m < pow2(l) implies #[trigger] level_term(a, rt, l, l, 0, k)(m) == dft_term(a, root_pow(rt, l), k)(m) by {
        assert(((l - l) as nat) == 0);
        assert(rev_bits(0, 0) == 0);
        assert(m * 1 == m);
    }
    lemma_sum_ext(level_term(a, rt, l, l, 0, k), dft_term(a, root_pow(rt, l), k), 0, pow2(l) as int);
}

/// Powers of `-1`.
proof fn lemma_pow_minus_one(d: nat)
    ensures
        d % 2 == 0 ==> pow(-1, d) == 1,
        d % 2 == 1 ==> pow(-1, d) == -1,
{
    if d % 2 == 1 {
        lemma_pow_minus_one_odd(((d - 1) / 2) as nat);
        assert(2 * ((d - 1) / 2) + 1 == d);
    } else {
        lemma_pow_multiplies(-1, 2, d / 2);
        reveal_with_fuel(pow, 3);
        lemma1_pow(d / 2);
        assert(2 * (d / 2) == d);
    }
}

/// A geometric sum of a nontrivial power of a root of unity vanishes.
pub proof fn lemma_geom(rt: int, l: nat, d: int)
    requires
        good_root(rt),
        l <= 24,
        0 < d < pow2(l),
    ensures
        sum(|k: int| pow(root_pow(rt, l), (d * k) as nat), 0, pow2(l) as int) % modulus() == 0,
    decreases l,
{
    let p = modulus();
    if l == 0 {
        lemma_pow2(0);
        reveal(pow);
    } else {
        let lm = (l - 1) as nat;
        let h = pow2(lm) as int;
        let w = root_pow(rt, l);
        let f = |k: int| pow(w, (d * k) as nat);
        lemma_pow2_unfold(l);
        lemma_pow2_pos(lm);
        lemma_root_pow(rt, l);
        lemma_sum_split(f, 0, h, 2 * h);
        lemma_sum_shift(f, h, 2 * h, -h);
        let g = |k: int| f(k - (-h));
        // f(k + h) == f(k) * (w^h)^d
        let wh = pow(w, h as nat);
        let sgn = pow(wh, d as nat);
        assert forall|k: int| 0 <= k < h implies #[trigger] g(k) == f(k) * sgn by {
            assert(d * k >= 0 && d * h >= 0) by (nonlinear_arith)
                requires
                    d > 0,
                    k >= 0,
                    h > 0,
            ;
            assert(d * (k + h) == d * k + d * h) by (nonlinear_arith);
            lemma_pow_adds(w, (d * k) as nat, (d * h) as nat);
            lemma_pow_multiplies(w, h as nat, d as nat);
            assert(h * d == d * h) by (nonlinear_arith);
        }
        lemma_sum_ext(g, |k: int| f(k) * sgn, 0, h);
        lemma_sum_scale(f, sgn, 0, h);
        lemma_sum_ext(|k: int| f(k) * sgn, |k: int| sgn * f(k), 0, h);
        let s0 = sum(f, 0, h);
        // sgn == (-1)^d (mod p)
        lemma_pow_mod_noop(wh, d as nat, p);
        lemma_pow_mod_noop(-1, d as nat, p);
        assert((-1int) % p == p - 1);
        lemma_pow_minus_one(d as nat);
        if d % 2 == 1 {
            assert(sgn % p == (-1int) % p);
            // s0 + sgn * s0 == 0 (mod p)
            lemma_mul_mod_noop_left(sgn, s0, p);
            lemma_mul_mod_noop_left(-1, s0, p);
            lemma_add_mod_noop(s0, sgn * s0, p);
            lemma_add_mod_noop(s0, -1 * s0, p);
        } else {
            assert(sgn % p == 1);
            let d2 = d / 2;
            assert(0 < d2 < h);
            lemma_geom(rt, lm, d2);
            let f2 = |k: int| pow(root_pow(rt, lm), (d2 * k) as nat);
            assert forall|k: int| 0 <= k < h implies #[trigger] f(k) == f2(k) by {
                assert(d * k == 2 * (d2 * k)) by (nonlinear_arith)
                    requires
                        d == 2 * d2,
                ;
                assert(d2 * k >= 0) by (nonlinear_arith)
                    requires
                        d2 > 0,
                        k >= 0,
                ;
                lemma_pow_multiplies(w, 2, (d2 * k) as nat);
            }
            lemma_sum_ext(f, f2, 0, h);
            lemma_mul_mod_noop_left(sgn, s0, p);
            lemma_mul_basics(s0 % p);
            lemma_add_mod_noop(s0, sgn * s0, p);
        }
    }
}

/// The pair of inverse roots used by the transforms.
pub open spec fn inv_root() -> int {
    pow(1791270792int, (modulus() - 2) as nat) % modulus()
}

/// Orthogonality: `sum_k w^(t k) w'^(m k) == n [t == m]` for `t, m < n`.
pub proof fn lemma_orthogonal(l: nat, t: int, m: int)
    requires
        l <= 24,
        0 <= t < pow2(l),
        0 <= m < pow2(l),
    ensures
        sum(|k: int| pow(root_pow(1791270792int, l), (t * k) as nat) * pow(root_pow(inv_root(), l), (m * k) as nat), 0, pow2(l) as int) % modulus()
            == (if t == m { pow2(l) as int } else { 0 }) % modulus(),
{
    let p = modulus();
    let n = pow2(l) as int;
    let w = root_pow(1791270792int, l);
    let wi = root_pow(inv_root(), l);
    let e = pow2((24 - l) as nat);
    lemma_root_is_good();
    lemma_inverse_root_is_good(1791270792int, (modulus() - 2) as nat);
    // w * wi == 1 (mod p)
    assert((w * wi) % p == 1) by {
        crate::field::lemma_inverse(1791270792int);
        lemma_pow_distributes(1791270792int, inv_root(), e);
        lemma_mul_mod_noop_right(1791270792int, pow(1791270792int, (modulus() - 2) as nat), p);
        lemma_pow_mod_noop(1791270792int * inv_root(), e, p);
        lemma1_pow(e);
    }
    let f = |k: int| pow(w, (t * k) as nat) * pow(wi, (m * k) as nat);
    let (d, z) = if t >= m { (t - m, w) } else { (m - t, wi) };
    let g = |k: int| pow(z, (d * k) as nat);
    assert forall|k: int| 0 <= k < n implies #[trigger] (f(k) % p) == g(k) % p by {
        assert(t * k >= 0 && m * k >= 0 && d * k >= 0) by (nonlinear_arith)
            requires
                t >= 0,
                m >= 0,
                d >= 0,
                k >= 0,
        ;
        if t >= m {
            assert(t * k == d * k + m * k) by (nonlinear_arith)
                requires
                    d == t - m,
            ;
            lemma_pow_adds(w, (d * k) as nat, (m * k) as nat);
            lemma_pow_distributes(w, wi, (m * k) as nat);
            lemma_pow_mod_noop(w * wi, (m * k) as nat, p);
            lemma1_pow((m * k) as nat);
            let x = pow(w, (d * k) as nat);
            let y = pow(w, (m * k) as nat);
            let zz = pow(wi, (m * k) as nat);
            assert(x * y * zz == x * (y * zz)) by (nonlinear_arith);
            lemma_mul_mod_noop_right(x, y * zz, p);
            lemma_mul_basics(x);
        } else {
            assert(m * k == d * k + t * k) by (nonlinear_arith)
                requires
                    d == m - t,
            ;
            lemma_pow_adds(wi, (d * k) as nat, (t * k) as nat);
            lemma_pow_distributes(w, wi, (t * k) as nat);
            lemma_pow_mod_noop(w * wi, (t * k) as nat, p);
            lemma1_pow((t * k) as nat);
            let x = pow(wi, (d * k) as nat);
            let y = pow(w, (t * k) as nat);
            let zz = pow(wi, (t * k) as nat);
            assert(y * (x * zz) == x * (y * zz)) by (nonlinear_arith);
            lemma_mul_mod_noop_right(x, y * zz, p);
            lemma_mul_basics(x);
        }
    }
    lemma_sum_mod(f, g, 0, n);
    if t == m {
        assert forall|k: int| 0 <= k < n implies #[trigger] g(k) == 1 by {
            assert(d * k == 0);
            lemma_pow0(z);
        }
        lemma_sum_const_one(g, n);
    } else {
        if t >= m {
            lemma_geom(1791270792int, l, d);
        } else {
            lemma_geom(inv_root(), l, d);
        }
    }
}

proof fn lemma_sum_const_one(g: spec_fn(int) -> int, n: int)
    requires
        n >= 0,
        forall|k: int| 0 <= k < n ==> #[trigger] g(k) == 1,
    ensures
        sum(g, 0, n) == n,
    decreases n,
{
    if n > 0 {
        lemma_sum_const_one(g, n - 1);
    }
}


/// A term of the expanded inverse transform of a pointwise product.
pub open spec fn t3(a: Seq<u32>, b: Seq<u32>, w: int, wi: int, m: int, k: int, i: int, j: int) -> int {
    coef(a, i) * coef(b, j) * (pow(w, (i * k) as nat) * pow(w, (j * k) as nat) * pow(wi, (k * m) as nat))
}

pub open spec fn t3_j(a: Seq<u32>, b: Seq<u32>, w: int, wi: int, m: int, k: int, i: int) -> spec_fn(int) -> int {
    |j: int| t3(a, b, w, wi, m, k, i, j)
}

pub open spec fn t3_kij(a: Seq<u32>, b: Seq<u32>, w: int, wi: int, m: int, n: int) -> spec_fn(int, int) -> int {
    |k: int, i: int| sum(t3_j(a, b, w, wi, m, k, i), 0, n)
}

pub open spec fn t3_kj(a: Seq<u32>, b: Seq<u32>, w: int, wi: int, m: int, i: int) -> spec_fn(int, int) -> int {
    |k: int, j: int| t3(a, b, w, wi, m, k, i, j)
}

pub proof fn lemma_level_ext(x: Seq<u32>, y: Seq<u32>, rt: int, l: nat, k: int)
    requires
        forall|i: int| #[trigger] coef(x, i) == coef(y, i),
    ensures
        level(x, rt, l, l, 0, k) == level(y, rt, l, l, 0, k),
{
    assert forall|m: int| 0 <= m < pow2(l) implies #[trigger] level_term(x, rt, l, l, 0, k)(m) == level_term(y, rt, l, l, 0, k)(m) by {
        let idx = rev_bits(0, (l - l) as nat) + m * pow2((l - l) as nat);
        assert(coef(x, idx) == coef(y, idx));
    }
    lemma_sum_ext(level_term(x, rt, l, l, 0, k), level_term(y, rt, l, l, 0, k), 0, pow2(l) as int);
}

/// For fixed `k`, the expanded double sum is the product of the transforms.
proof fn lemma_row_is_product(a: Seq<u32>, b: Seq<u32>, w: int, wi: int, m: int, n: int, k: int)
    requires
        n >= 0,
        k >= 0,
        m >= 0,
    ensures
        sum(|i: int| sum(t3_j(a, b, w, wi, m, k, i), 0, n), 0, n) == sum(dft_term(a, w, k), 0, n) * (sum(dft_term(b, w, k), 0, n) * pow(wi, (k * m) as nat)),
{
    let c = pow(wi, (k * m) as nat);
    let bk = sum(dft_term(b, w, k), 0, n);
    let da = dft_term(a, w, k);
    let db = dft_term(b, w, k);
    lemma_sum_scale(da, bk * c, 0, n);
    assert forall|i: int| 0 <= i < n implies #[trigger] sum(t3_j(a, b, w, wi, m, k, i), 0, n) == (bk * c) * da(i) by {
        lemma_sum_scale(db, da(i) * c, 0, n);
        assert forall|j: int| 0 <= j < n implies #[trigger] t3(a, b, w, wi, m, k, i, j) == (da(i) * c) * db(j) by {
            let ai = coef(a, i);
            let bj = coef(b, j);
            let x = pow(w, (i * k) as nat);
            let y = pow(w, (j * k) as nat);
            assert(ai * bj * (x * y * c) == (ai * x * c) * (bj * y)) by (nonlinear_arith);
        }
        lemma_sum_ext(t3_j(a, b, w, wi, m, k, i), |j: int| (da(i) * c) * db(j), 0, n);
        assert((da(i) * c) * bk == (bk * c) * da(i)) by (nonlinear_arith);
    }
    lemma_sum_ext(
        |i: int| sum(t3_j(a, b, w, wi, m, k, i), 0, n),
        |i: int| (bk * c) * da(i),
        0,
        n,
    );
    assert((bk * c) * sum(da, 0, n) == sum(da, 0, n) * (bk * c)) by (nonlinear_arith);
}

/// For fixed `i` and `j`, summing over `k` picks out `i + j == m`.
proof fn lemma_col_orthogonal(a: Seq<u32>, b: Seq<u32>, l: nat, m: int, i: int, j: int)
    requires
        l <= 24,
        a.len() + b.len() <= pow2(l) + 1,
        0 <= i < pow2(l),
        0 <= j < pow2(l),
        0 <= m < pow2(l),
    ensures
        sum(|k: int| t3(a, b, root_pow(1791270792int, l), root_pow(inv_root(), l), m, k, i, j), 0, pow2(l) as int) % modulus()
            == (if i + j == m { (pow2(l) as int) * (coef(a, i) * coef(b, j)) } else { 0 }) % modulus(),
{
    let p = modulus();
    let n = pow2(l) as int;
    let w = root_pow(1791270792int, l);
    let wi = root_pow(inv_root(), l);
    let ab = coef(a, i) * coef(b, j);
    let f = |k: int| t3(a, b, w, wi, m, k, i, j);
    if i + j >= n {
        assert(ab == 0) by {
            if i < a.len() && j < b.len() {
                assert(false);
            }
            if i >= a.len() {
                lemma_mul_basics(coef(b, j));
            } else {
                lemma_mul_basics(coef(a, i));
            }
        }
        assert forall|k: int| 0 <= k < n implies #[trigger] f(k) == 0 by {
            lemma_mul_basics(pow(w, (i * k) as nat) * pow(w, (j * k) as nat) * pow(wi, (k * m) as nat));
        }
        crate::poly_algebra::lemma_sum_zero(f, 0, n);
    } else {
        let g = |k: int| pow(w, ((i + j) * k) as nat) * pow(wi, (m * k) as nat);
        assert forall|k: int| 0 <= k < n implies #[trigger] f(k) == ab * g(k) by {
            assert(i * k >= 0 && j * k >= 0 && k * m == m * k && (i + j) * k == i * k + j * k) by (nonlinear_arith)
                requires
                    i >= 0,
                    j >= 0,
                    k >= 0,
            ;
            lemma_pow_adds(w, (i * k) as nat, (j * k) as nat);
        }
        lemma_sum_ext(f, |k: int| ab * g(k), 0, n);
        lemma_sum_scale(g, ab, 0, n);
        lemma_orthogonal(l, i + j, m);
        lemma_mul_mod_noop_right(ab, sum(g, 0, n), p);
        if i + j == m {
            lemma_mul_mod_noop_right(ab, n, p);
            lemma_mul_is_commutative(ab, n);
        } else {
            lemma_mul_basics(ab);
        }
    }
}

/// The convolution theorem for the transforms of the library: the inverse
/// transform of the pointwise product of the transforms of `a` and `b`,
/// divided by the length, is the product `a * b` (when it fits).
pub proof fn lemma_conv_theorem(a: Seq<u32>, b: Seq<u32>, h: Seq<u32>, l: nat, m: int)
    requires
        l <= 24,
        a.len() + b.len() <= pow2(l) + 1,
        h.len() == pow2(l),
        forall|k: int| 0 <= k < pow2(l) ==> #[trigger] h[k] as int == (level(a, 1791270792int, l, l, 0, k) * level(b, 1791270792int, l, l, 0, k)) % modulus(),
        0 <= m < pow2(l),
    ensures
        (level(h, inv_root(), l, l, 0, m) * crate::poly_spec::inv_spec(pow2(l) as int)) % modulus() == crate::poly_spec::conv(a, b, m) % modulus(),
{
    let p = modulus();
    let n = pow2(l) as int;
    let w = root_pow(1791270792int, l);
    let wi = root_pow(inv_root(), l);
    lemma_pow2_pos(l);
    lemma_level_full(h, inv_root(), l, m);
    // the transform of h, term by term
    let lhs = dft_term(h, wi, m);
    let rows = row_sums(t3_kij(a, b, w, wi, m, n), 0, n);
    assert forall|k: int| 0 <= k < n implies #[trigger] (lhs(k) % p) == rows(k) % p by {
        lemma_level_full(a, 1791270792int, l, k);
        lemma_level_full(b, 1791270792int, l, k);
        lemma_row_is_product(a, b, w, wi, m, n, k);
        let ak = sum(dft_term(a, w, k), 0, n);
        let bk = sum(dft_term(b, w, k), 0, n);
        let c = pow(wi, (k * m) as nat);
        assert(m * k == k * m) by (nonlinear_arith);
        assert(coef(h, k) == h[k] as int);
        // h_k * c == ak * bk * c (mod p)
        lemma_mul_mod_noop(ak, bk, p);
        lemma_mul_mod_noop_left(ak * bk, c, p);
        lemma_mul_mod_noop_left(h[k] as int, c, p);
        lemma_mod_twice(ak * bk, p);
        assert(ak * (bk * c) == (ak * bk) * c) by (nonlinear_arith);
        assert forall|i: int| 0 <= i < n implies #[trigger] row(t3_kij(a, b, w, wi, m, n), k)(i) == sum(t3_j(a, b, w, wi, m, k, i), 0, n) by {
        }
        lemma_sum_ext(row(t3_kij(a, b, w, wi, m, n), k), |i: int| sum(t3_j(a, b, w, wi, m, k, i), 0, n), 0, n);
    }
    lemma_sum_mod(lhs, rows, 0, n);
    crate::poly_algebra::lemma_sum_swap(t3_kij(a, b, w, wi, m, n), 0, n, 0, n);
    // for fixed i, swap k and j and apply orthogonality
    let cols = col_sums(t3_kij(a, b, w, wi, m, n), 0, n);
    let target = |i: int| n * (coef(a, i) * coef(b, m - i));
    assert forall|i: int| 0 <= i < n implies #[trigger] (cols(i) % p) == target(i) % p by {
        let g = t3_kj(a, b, w, wi, m, i);
        assert forall|k: int| 0 <= k < n implies #[trigger] col(t3_kij(a, b, w, wi, m, n), i)(k) == row_sums(g, 0, n)(k) by {
            lemma_sum_ext(t3_j(a, b, w, wi, m, k, i), row(g, k), 0, n);
        }
        lemma_sum_ext(col(t3_kij(a, b, w, wi, m, n), i), row_sums(g, 0, n), 0, n);
        crate::poly_algebra::lemma_sum_swap(g, 0, n, 0, n);
        let u = |j: int| if i + j == m { n * (coef(a, i) * coef(b, j)) } else { 0 };
        assert forall|j: int| 0 <= j < n implies #[trigger] (col_sums(g, 0, n)(j) % p) == u(j) % p by {
            lemma_sum_ext(col(g, j), |k: int| t3(a, b, w, wi, m, k, i, j), 0, n);
            lemma_col_orthogonal(a, b, l, m, i, j);
        }
        lemma_sum_mod(col_sums(g, 0, n), u, 0, n);
        if 0 <= m - i < n {
            crate::poly_algebra::lemma_sum_single(u, 0, n, m - i);
        } else {
            assert(coef(b, m - i) == 0);
            lemma_mul_basics(coef(a, i));
            lemma_mul_basics(n);
            crate::poly_algebra::lemma_sum_zero(u, 0, n);
        }
    }
    lemma_sum_mod(cols, target, 0, n);
    // sum_i n a_i b_{m-i} == n * conv(a, b, m)
    let ct = crate::poly_algebra::conv_term(a, b, m);
    lemma_sum_ext(target, |i: int| n * ct(i), 0, n);
    lemma_sum_scale(ct, n, 0, n);
    let wbig = crate::poly_algebra::win(a, b, m) + n;
    crate::poly_algebra::lemma_conv_as_sum(a, b, m, wbig);
    assert forall|i: int| (-wbig <= i < 0 || n <= i < wbig) implies #[trigger] ct(i) == 0 by {
        lemma_mul_basics(coef(b, m - i));
    }
    crate::poly_algebra::lemma_sum_window(ct, 0, n, -wbig, wbig);
    // divide by n
    let cv = crate::poly_spec::conv(a, b, m);
    let s_h = sum(lhs, 0, n);
    assert(s_h % p == (n * cv) % p);
    lemma2_to64();
    if l < 24 {
        vstd::arithmetic::power2::lemma_pow2_strictly_increases(l, 24);
    }
    lemma_small_mod(n as nat, p as nat);
    crate::field::lemma_inverse(n);
    let pw = pow(n, (p - 2) as nat);
    let iv = crate::poly_spec::inv_spec(n);
    assert(iv == pw % p);
    lemma_mul_mod_noop_left(s_h, iv, p);
    lemma_mul_mod_noop_left(n * cv, iv, p);
    assert((n * cv) * iv == cv * (n * iv)) by (nonlinear_arith);
    lemma_mul_mod_noop_right(cv, n * iv, p);
    lemma_mul_mod_noop_right(n, pw, p);
    lemma_mul_basics(cv);
}

} // verus!
