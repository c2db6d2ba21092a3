//! Congruence of polynomials modulo a polynomial, and powers of a polynomial.
use vstd::arithmetic::div_mod::*;
use vstd::arithmetic::mul::*;
use vstd::prelude::*;

use crate::field::{lemma_field_no_zero_divisors, modulus};
use crate::poly_algebra::{
    conv_term, lemma_conv_as_sum, lemma_conv_assoc, lemma_conv_comm, lemma_conv_prefix,
    lemma_sum_add, lemma_sum_ext, lemma_sum_mod, win,
};
use crate::poly_spec::{
    add_spec, canon, coef, conv, conv_upto, has_rem, is_divmod, lemma_add_spec_coef,
    lemma_divmod_is_spec, lemma_mul_spec_coef, lemma_ops_canon, lemma_trim, lemma_trimmed_eq,
    lemma_trim_canon,
    mul_spec, reduced, rem_spec, trim_spec, trimmed, conv_coefs, from_fn,
};

verus! {

/// `a` and `b` agree modulo p.
pub open spec fn eqm(a: int, b: int) -> bool {
    a % modulus() == b % modulus()
}

/// `x + q * m` has the coefficients of `y`.
pub open spec fn congruent_by(x: Seq<u32>, y: Seq<u32>, m: Seq<u32>, q: Seq<u32>) -> bool {
    forall|k: int| #[trigger] eqm(coef(x, k) + conv(q, m, k), coef(y, k))
}

/// `x` is congruent to `y` modulo `m` in F_p[x].
pub open spec fn congruent(x: Seq<u32>, y: Seq<u32>, m: Seq<u32>) -> bool {
    exists|q: Seq<u32>| #[trigger] congruent_by(x, y, m, q)
}

/// `b^e` in F_p[x].
pub open spec fn ppow(b: Seq<u32>, e: nat) -> Seq<u32>
    decreases e,
{
    if e == 0 {
        seq![1u32]
    } else {
        mul_spec(b, ppow(b, (e - 1) as nat))
    }
}

proof fn lemma_eqm_add(a: int, b: int, c: int, d: int)
    requires
        eqm(a, b),
        eqm(c, d),
    ensures
        eqm(a + c, b + d),
{
    let p = modulus();
    lemma_add_mod_noop(a, c, p);
    lemma_add_mod_noop(b, d, p);
}

proof fn lemma_eqm_mod(a: int)
    ensures
        eqm(a % modulus(), a),
{
    lemma_mod_twice(a, modulus());
}

/// Multiplication distributes over addition on the left.
pub proof fn lemma_conv_add_left(a: Seq<u32>, b: Seq<u32>, c: Seq<u32>, k: int)
    ensures
        eqm(conv(add_spec(a, b), c, k), conv(a, c, k) + conv(b, c, k)),
{
    let p = modulus();
    let s = add_spec(a, b);
    let w = win(s, c, k) + win(a, c, k) + win(b, c, k);
    lemma_conv_as_sum(s, c, k, w);
    lemma_conv_as_sum(a, c, k, w);
    lemma_conv_as_sum(b, c, k, w);
    let fs = conv_term(s, c, k);
    let fa = conv_term(a, c, k);
    let fb = conv_term(b, c, k);
    let g = |i: int| fa(i) + fb(i);
    assert forall|i: int| -w <= i < w implies #[trigger] (fs(i) % p) == g(i) % p by {
        lemma_add_spec_coef(a, b, i);
        lemma_mul_mod_noop_left(coef(a, i) + coef(b, i), coef(c, k - i), p);
        lemma_mul_is_distributive_add_other_way(coef(c, k - i), coef(a, i), coef(b, i));
    }
    lemma_sum_mod(fs, g, -w, w);
    lemma_sum_add(fa, fb, -w, w);
    lemma_sum_ext(g, |x: int| fa(x) + fb(x), -w, w);
}

/// Multiplication distributes over addition on the right.
pub proof fn lemma_conv_add_right(c: Seq<u32>, a: Seq<u32>, b: Seq<u32>, k: int)
    ensures
        eqm(conv(c, add_spec(a, b), k), conv(c, a, k) + conv(c, b, k)),
{
    lemma_conv_add_left(a, b, c, k);
    lemma_conv_comm(c, add_spec(a, b), k);
    lemma_conv_comm(c, a, k);
    lemma_conv_comm(c, b, k);
}

/// Polynomials with the same coefficients mod p are congruent.
pub proof fn lemma_congruent_same(x: Seq<u32>, y: Seq<u32>, m: Seq<u32>)
    requires
        forall|k: int| #[trigger] eqm(coef(x, k), coef(y, k)),
    ensures
        congruent_by(x, y, m, Seq::<u32>::empty()),
        congruent(x, y, m),
{
    assert forall|k: int| #[trigger] eqm(coef(x, k) + conv(Seq::<u32>::empty(), m, k), coef(y, k)) by {
        assert(eqm(coef(x, k), coef(y, k)));
    }
    assert(congruent_by(x, y, m, Seq::<u32>::empty()));
}

/// Congruence is transitive.
pub proof fn lemma_congruent_trans(x: Seq<u32>, y: Seq<u32>, z: Seq<u32>, m: Seq<u32>)
    requires
        congruent(x, y, m),
        congruent(y, z, m),
    ensures
        congruent(x, z, m),
{
    let q1 = choose|q: Seq<u32>| #[trigger] congruent_by(x, y, m, q);
    let q2 = choose|q: Seq<u32>| #[trigger] congruent_by(y, z, m, q);
    let q = add_spec(q1, q2);
    assert forall|k: int| #[trigger] eqm(coef(x, k) + conv(q, m, k), coef(z, k)) by {
        assert(eqm(coef(x, k) + conv(q1, m, k), coef(y, k)));
        assert(eqm(coef(y, k) + conv(q2, m, k), coef(z, k)));
        lemma_conv_add_left(q1, q2, m, k);
        lemma_eqm_add(coef(x, k), coef(x, k), conv(q, m, k), conv(q1, m, k) + conv(q2, m, k));
        lemma_eqm_add(coef(x, k) + conv(q1, m, k), coef(y, k), conv(q2, m, k), conv(q2, m, k));
    }
    assert(congruent_by(x, z, m, q));
}

/// Congruence modulo `m` is compatible with multiplication.
pub proof fn lemma_congruent_mul(x: Seq<u32>, x2: Seq<u32>, y: Seq<u32>, y2: Seq<u32>, m: Seq<u32>)
    requires
        congruent(x, x2, m),
        congruent(y, y2, m),
    ensures
        congruent(mul_spec(x, y), mul_spec(x2, y2), m),
{
    let p = modulus();
    let q1 = choose|q: Seq<u32>| #[trigger] congruent_by(x, x2, m, q);
    let q2 = choose|q: Seq<u32>| #[trigger] congruent_by(y, y2, m, q);
    let q1m = mul_spec(q1, m);
    let q2m = mul_spec(q2, m);
    let xx = add_spec(x, q1m);
    let yy = add_spec(y, q2m);
    let a1 = mul_spec(x, q2);
    let a2 = mul_spec(y, q1);
    let a3 = mul_spec(q1m, q2);
    let q = add_spec(add_spec(a1, a2), a3);
    assert forall|i: int| #[trigger] eqm(coef(xx, i), coef(x2, i)) by {
        lemma_add_spec_coef(x, q1m, i);
        lemma_mul_spec_coef(q1, m, i);
        lemma_eqm_mod(coef(x, i) + coef(q1m, i));
        lemma_eqm_mod(conv(q1, m, i));
        lemma_eqm_add(coef(x, i), coef(x, i), coef(q1m, i), conv(q1, m, i));
        assert(eqm(coef(x, i) + conv(q1, m, i), coef(x2, i)));
    }
    assert forall|i: int| #[trigger] eqm(coef(yy, i), coef(y2, i)) by {
        lemma_add_spec_coef(y, q2m, i);
        lemma_mul_spec_coef(q2, m, i);
        lemma_eqm_mod(coef(y, i) + coef(q2m, i));
        lemma_eqm_mod(conv(q2, m, i));
        lemma_eqm_add(coef(y, i), coef(y, i), coef(q2m, i), conv(q2, m, i));
        assert(eqm(coef(y, i) + conv(q2, m, i), coef(y2, i)));
    }
    assert forall|k: int| #[trigger] eqm(coef(mul_spec(x, y), k) + conv(q, m, k), coef(mul_spec(x2, y2), k)) by {
        assert forall|i: int| 0 <= i <= k implies #[trigger] (coef(xx, i) % p) == coef(x2, i) % p by {
            assert(eqm(coef(xx, i), coef(x2, i)));
        }
        assert forall|i: int| 0 <= i <= k implies #[trigger] (coef(yy, i) % p) == coef(y2, i) % p by {
            assert(eqm(coef(yy, i), coef(y2, i)));
        }
        lemma_conv_prefix(xx, x2, yy, y2, k);
        // expand (x + q1 m)(y + q2 m)
        lemma_conv_add_left(x, q1m, yy, k);
        lemma_conv_add_right(x, y, q2m, k);
        lemma_conv_add_right(q1m, y, q2m, k);
        lemma_conv_assoc(x, q2, m, k);
        lemma_conv_comm(q1m, y, k);
        lemma_conv_assoc(y, q1, m, k);
        lemma_conv_assoc(q1m, q2, m, k);
        lemma_conv_add_left(add_spec(a1, a2), a3, m, k);
        lemma_conv_add_left(a1, a2, m, k);
        let cxy = conv(x, y, k);
        let t1 = conv(x, q2m, k);
        let t2 = conv(q1m, y, k);
        let t3 = conv(q1m, q2m, k);
        let u1 = conv(a1, m, k);
        let u2 = conv(a2, m, k);
        let u3 = conv(a3, m, k);
        assert(eqm(u1, t1));
        assert(eqm(u2, t2));
        assert(eqm(u3, t3));
        lemma_eqm_add(u1, t1, u2, t2);
        lemma_eqm_add(conv(add_spec(a1, a2), m, k), u1 + u2, u3, t3);
        assert(eqm(conv(q, m, k), t1 + t2 + t3));
        lemma_eqm_add(conv(x, yy, k), cxy + t1, conv(q1m, yy, k), t2 + t3);
        assert(eqm(conv(xx, yy, k), cxy + t1 + t2 + t3));
        lemma_mul_spec_coef(x, y, k);
        lemma_mul_spec_coef(x2, y2, k);
        lemma_eqm_mod(cxy);
        lemma_eqm_mod(conv(x2, y2, k));
        lemma_eqm_add(coef(mul_spec(x, y), k), cxy, conv(q, m, k), t1 + t2 + t3);
    }
    assert(congruent_by(mul_spec(x, y), mul_spec(x2, y2), m, q));
}

/// A remainder of `z` by `m` is congruent to `z`.
pub proof fn lemma_rem_congruent(z: Seq<u32>, m: Seq<u32>, r: Seq<u32>)
    requires
        has_rem(z, m, r),
    ensures
        congruent(r, z, m),
{
    let q = choose|q: Seq<u32>| #[trigger] is_divmod(z, m, q, r);
    assert forall|k: int| #[trigger] eqm(coef(r, k) + conv(q, m, k), coef(z, k)) by {
        assert(((conv(q, m, k) + coef(r, k)) % modulus()) == coef(z, k) % modulus());
    }
    assert(congruent_by(r, z, m, q));
}

/// A canonical polynomial of degree below that of `m` and congruent to `z`
/// is the remainder of `z` by `m`.
pub proof fn lemma_congruent_rem(z: Seq<u32>, m: Seq<u32>, r: Seq<u32>)
    requires
        congruent(r, z, m),
        canon(r),
        reduced(m),
        r.len() < trim_spec(m).len(),
    ensures
        rem_spec(z, m) == r,
        has_rem(z, m, r),
{
    let p = modulus();
    let q = choose|q: Seq<u32>| #[trigger] congruent_by(r, z, m, q);
    let qq = add_spec(q, Seq::<u32>::empty());
    lemma_ops_canon(q, Seq::<u32>::empty(), 0);
    assert forall|k: int| #[trigger] ((conv(qq, m, k) + coef(r, k)) % p) == coef(z, k) % p by {
        assert forall|i: int| 0 <= i <= k implies #[trigger] (coef(qq, i) % p) == coef(q, i) % p by {
            lemma_add_spec_coef(q, Seq::<u32>::empty(), i);
            lemma_mod_twice(coef(q, i), p);
        }
        assert forall|i: int| 0 <= i <= k implies #[trigger] (coef(m, i) % p) == coef(m, i) % p by {
        }
        lemma_conv_prefix(qq, q, m, m, k);
        assert(eqm(coef(r, k) + conv(q, m, k), coef(z, k)));
        lemma_eqm_add(coef(r, k), coef(r, k), conv(qq, m, k), conv(q, m, k));
    }
    assert(is_divmod(z, m, qq, r));
    lemma_divmod_is_spec(z, m, qq, r);
}

/// The length of a product.
pub proof fn lemma_mul_spec_len(a: Seq<u32>, b: Seq<u32>)
    ensures
        a.len() == 0 || b.len() == 0 ==> mul_spec(a, b).len() == 0,
        a.len() > 0 && b.len() > 0 ==> mul_spec(a, b).len() <= a.len() + b.len() - 1,
{
    if a.len() > 0 && b.len() > 0 {
        lemma_trim(from_fn((a.len() + b.len() - 1) as nat, conv_coefs(a, b)));
    }
}

/// Powers are canonical.
pub proof fn lemma_ppow_canon(b: Seq<u32>, e: nat)
    ensures
        canon(ppow(b, e)),
{
    if e == 0 {
        assert(trimmed(seq![1u32]));
    } else {
        lemma_ops_canon(b, ppow(b, (e - 1) as nat), 0);
    }
}

/// `1` is a left unit of multiplication on canonical polynomials.
pub proof fn lemma_mul_one_left(x: Seq<u32>)
    requires
        canon(x),
    ensures
        mul_spec(seq![1u32], x) == x,
{
    let one = seq![1u32];
    lemma_ops_canon(one, x, 0);
    assert forall|k: int| #[trigger] coef(mul_spec(one, x), k) == coef(x, k) by {
        lemma_mul_spec_coef(one, x, k);
        assert(coef(one, 0) == 1);
        assert(coef(one, 0) * coef(x, k) == coef(x, k));
        assert(conv(one, x, k) == conv_upto(one, x, k, 1));
        assert(conv_upto(one, x, k, 0) == 0);
        if 0 <= k < x.len() {
            lemma_small_mod(x[k] as nat, modulus() as nat);
        } else {
            lemma_small_mod(0nat, modulus() as nat);
        }
    }
    lemma_trimmed_eq(mul_spec(one, x), x);
}

/// Multiplication of polynomials is associative.
pub proof fn lemma_mul_assoc(a: Seq<u32>, b: Seq<u32>, c: Seq<u32>)
    ensures
        mul_spec(mul_spec(a, b), c) == mul_spec(a, mul_spec(b, c)),
{
    lemma_ops_canon(mul_spec(a, b), c, 0);
    lemma_ops_canon(a, mul_spec(b, c), 0);
    assert forall|k: int| #[trigger] coef(mul_spec(mul_spec(a, b), c), k) == coef(mul_spec(a, mul_spec(b, c)), k) by {
        lemma_mul_spec_coef(mul_spec(a, b), c, k);
        lemma_mul_spec_coef(a, mul_spec(b, c), k);
        lemma_conv_assoc(a, b, c, k);
    }
    lemma_trimmed_eq(mul_spec(mul_spec(a, b), c), mul_spec(a, mul_spec(b, c)));
}

/// `b^i * b^j == b^(i + j)`.
pub proof fn lemma_ppow_add(b: Seq<u32>, i: nat, j: nat)
    ensures
        mul_spec(ppow(b, i), ppow(b, j)) == ppow(b, i + j),
    decreases i,
{
    if i == 0 {
        lemma_ppow_canon(b, j);
        lemma_mul_one_left(ppow(b, j));
        assert(i + j == j);
    } else {
        let i1 = (i - 1) as nat;
        lemma_ppow_add(b, i1, j);
        lemma_mul_assoc(b, ppow(b, i1), ppow(b, j));
        assert((i1 + j + 1) as nat == i + j);
        assert(ppow(b, i + j) == mul_spec(b, ppow(b, (i + j - 1) as nat)));
    }
}

/// `b^1` has the coefficients of `b`.
pub proof fn lemma_ppow_one(b: Seq<u32>)
    requires
        reduced(b),
    ensures
        forall|k: int| #[trigger] coef(ppow(b, 1), k) == coef(b, k),
{
    let one = seq![1u32];
    assert(ppow(b, 0) == one);
    assert(ppow(b, 1) == mul_spec(b, one));
    assert forall|k: int| #[trigger] coef(ppow(b, 1), k) == coef(b, k) by {
        lemma_mul_spec_coef(b, one, k);
        assert(coef(one, 0) == 1);
        assert(coef(one, 0) * coef(b, k) == coef(b, k));
        lemma_conv_comm(b, one, k);
        assert(conv(one, b, k) == conv_upto(one, b, k, 1));
        assert(conv_upto(one, b, k, 0) == 0);
        if 0 <= k < b.len() {
            lemma_small_mod(b[k] as nat, modulus() as nat);
        } else {
            lemma_small_mod(0nat, modulus() as nat);
        }
    }
}

/// One step of modular multiplication: the remainder of `x * y` is congruent
/// to `X * Y` when `x` and `y` are congruent to `X` and `Y`.
pub proof fn lemma_mulmod_step(
    r: Seq<u32>,
    x: Seq<u32>,
    y: Seq<u32>,
    xx: Seq<u32>,
    yy: Seq<u32>,
    m: Seq<u32>,
)
    requires
        has_rem(mul_spec(x, y), m, r),
        congruent(x, xx, m),
        congruent(y, yy, m),
    ensures
        congruent(r, mul_spec(xx, yy), m),
{
    lemma_rem_congruent(mul_spec(x, y), m, r);
    lemma_congruent_mul(x, xx, y, yy, m);
    lemma_congruent_trans(r, mul_spec(x, y), mul_spec(xx, yy), m);
}

/// What a remainder is: canonical, and shorter than the trimmed divisor.
pub proof fn lemma_has_rem_facts(z: Seq<u32>, m: Seq<u32>, r: Seq<u32>)
    requires
        has_rem(z, m, r),
    ensures
        canon(r),
        r.len() < trim_spec(m).len(),
{
    let q = choose|q: Seq<u32>| #[trigger] is_divmod(z, m, q, r);
    assert(is_divmod(z, m, q, r));
}

proof fn lemma_conv_upto_top_zero(q: Seq<u32>, b: Seq<u32>, t: int, n: int)
    requires
        0 <= n,
        n < q.len(),
        t == q.len() + b.len() - 2,
    ensures
        conv_upto(q, b, t, n) == 0,
    decreases n,
{
    if n > 0 {
        lemma_conv_upto_top_zero(q, b, t, n - 1);
        assert(coef(b, t - (n - 1)) == 0);
    }
}

/// The top coefficient of a product is the product of the top coefficients.
pub proof fn lemma_conv_top(q: Seq<u32>, b: Seq<u32>)
    requires
        q.len() > 0,
        b.len() > 0,
    ensures
        conv(q, b, q.len() + b.len() - 2) == coef(q, q.len() - 1) * coef(b, b.len() - 1),
{
    let t = q.len() + b.len() - 2;
    lemma_conv_upto_top_zero(q, b, t, q.len() - 1);
}

/// A quotient by `b` has degree `deg a - deg b`, at most.
pub proof fn lemma_quot_len(a: Seq<u32>, b: Seq<u32>, q: Seq<u32>, r: Seq<u32>)
    requires
        is_divmod(a, b, q, r),
        canon(b),
        b.len() > 0,
    ensures
        q.len() > 0 ==> q.len() + b.len() - 1 <= a.len(),
{
    if q.len() > 0 && q.len() + b.len() - 1 > a.len() {
        let p = modulus();
        let t = q.len() + b.len() - 2;
        lemma_trim_canon(b);
        lemma_conv_top(q, b);
        assert(coef(r, t) == 0);
        assert(coef(a, t) == 0);
        assert(((conv(q, b, t) + coef(r, t)) % p) == coef(a, t) % p);
        let x = coef(q, q.len() - 1);
        let y = coef(b, b.len() - 1);
        lemma_small_mod(x as nat, p as nat);
        lemma_small_mod(y as nat, p as nat);
        lemma_field_no_zero_divisors(x, y);
    }
}

/// Adding zero to a canonical polynomial leaves it unchanged.
pub proof fn lemma_add_empty_right(acc: Seq<u32>)
    requires
        canon(acc),
    ensures
        add_spec(acc, Seq::<u32>::empty()) == acc,
{
    lemma_ops_canon(acc, Seq::<u32>::empty(), 0);
    assert forall|k: int| #[trigger] coef(add_spec(acc, Seq::<u32>::empty()), k) == coef(acc, k) by {
        lemma_add_spec_coef(acc, Seq::<u32>::empty(), k);
        if 0 <= k < acc.len() {
            lemma_small_mod(acc[k] as nat, modulus() as nat);
        } else {
            lemma_small_mod(0, modulus() as nat);
        }
    }
    lemma_trimmed_eq(add_spec(acc, Seq::<u32>::empty()), acc);
}

} // verus!
