//! The KoalaBear prime field as the contracts see it: integers taken modulo
//! `P`, with the facts the library relies on proved here (primality of `P`,
//! Euclid's lemma, the binomial theorem, Fermat's little theorem and the
//! existence of inverses).
use vstd::arithmetic::div_mod::*;
use vstd::arithmetic::mul::*;
use vstd::arithmetic::power::*;
use vstd::prelude::*;

use crate::P;

verus! {

/// The field modulus as a mathematical integer.
pub open spec fn modulus() -> int {
    P as int
}

/// Canonical representative of `x` in the field.
pub open spec fn fe(x: int) -> int {
    x % modulus()
}

/// `n` is prime: no divisor strictly between 1 and `n`.
pub open spec fn is_prime(n: int) -> bool {
    n > 1 && forall|d: int| 1 < d < n ==> #[trigger] (n % d) != 0
}

/// Binomial coefficient by Pascal's rule.
pub open spec fn binom(n: nat, k: nat) -> nat
    decreases n,
{
    if k == 0 {
        1
    } else if n == 0 {
        0
    } else {
        binom((n - 1) as nat, (k - 1) as nat) + binom((n - 1) as nat, k)
    }
}

/// `sum_{i < k} binom(n, i) * a^i`.
pub open spec fn binom_sum(a: int, n: nat, k: nat) -> int
    decreases k,
{
    if k == 0 {
        0
    } else {
        binom_sum(a, n, (k - 1) as nat) + binom(n, (k - 1) as nat) * pow(a, (k - 1) as nat)
    }
}

#[verifier::rlimit(100)]
proof fn lemma_no_small_divisor()
    ensures
        forall|d: u32| 1 < d < 46341u32 ==> #[trigger] (2130706433u32 % d) != 0u32,
{
    assert(forall|d: u32| 1 < d < 46341u32 ==> #[trigger] (2130706433u32 % d) != 0u32)
        by (bit_vector);
}

/// `P` is prime.
pub proof fn lemma_p_is_prime()
    ensures
        is_prime(modulus()),
{
    lemma_no_small_divisor();
    let p = modulus();
    assert forall|d: int| 1 < d < p implies #[trigger] (p % d) != 0 by {
        if p % d == 0 {
            lemma_fundamental_div_mod(p, d);
            let e = p / d;
            assert(p == d * e);
            if d < 46341 {
                let du = d as u32;
                assert(2130706433u32 % du != 0u32);
                assert((2130706433u32 % du) as int == p % d);
            } else {
                // the cofactor is then a small divisor
                assert(e >= 1) by (nonlinear_arith)
                    requires
                        p == d * e,
                        d > 0,
                        p > 0,
                ;
                assert(e < 46341) by (nonlinear_arith)
                    requires
                        p == d * e,
                        d >= 46341,
                        p == 2130706433,
                        e >= 1,
                ;
                assert(e > 1) by (nonlinear_arith)
                    requires
                        p == d * e,
                        d < p,
                        e >= 1,
                ;
                lemma_mod_multiples_basic(d, e);
                assert(p % e == 0) by {
                    lemma_mul_is_commutative(d, e);
                }
                let eu = e as u32;
                assert(2130706433u32 % eu != 0u32);
                assert((2130706433u32 % eu) as int == p % e);
            }
        }
    }
}

/// Euclid's lemma, in the form used below: if the prime `p` divides `a * b`
/// and `0 < a < p`, then `p` divides `b`.
pub proof fn lemma_euclid(p: int, a: int, b: int)
    requires
        is_prime(p),
        0 < a < p,
        (a * b) % p == 0,
    ensures
        b % p == 0,
    decreases a,
{
    if a == 1 {
        lemma_mul_basics(b);
    } else {
        let q = p / a;
        let r = p % a;
        lemma_fundamental_div_mod(p, a);
        assert(p % a != 0);
        assert(0 < r < a);
        // r * b = p * b - q * (a * b)
        assert(r * b == p * b - q * (a * b)) by (nonlinear_arith)
            requires
                p == a * q + r,
        ;
        assert((r * b) % p == 0) by {
            let k = (a * b) / p;
            lemma_fundamental_div_mod(a * b, p);
            assert(a * b == p * k);
            assert(r * b == p * (b - q * k)) by (nonlinear_arith)
                requires
                    r * b == p * b - q * (a * b),
                    a * b == p * k,
            ;
            lemma_mod_multiples_basic(b - q * k, p);
            lemma_mul_is_commutative(p, b - q * k);
        }
        lemma_euclid(p, r, b);
    }
}

proof fn lemma_binom_above(n: nat, k: nat)
    requires
        k > n,
    ensures
        binom(n, k) == 0,
    decreases n,
{
    if n > 0 {
        lemma_binom_above((n - 1) as nat, (k - 1) as nat);
        lemma_binom_above((n - 1) as nat, k);
    }
}

proof fn lemma_pow_succ(a: int, k: nat)
    ensures
        pow(a, k + 1) == a * pow(a, k),
{
    lemma_pow_adds(a, k, 1);
    lemma_pow1(a);
    lemma_mul_is_commutative(a, pow(a, k));
}

/// `binom_sum(a, n+1, k+1) == a * binom_sum(a, n, k) + binom_sum(a, n, k+1)`.
proof fn lemma_binom_sum_step(a: int, n: nat, k: nat)
    ensures
        binom_sum(a, n + 1, k + 1) == a * binom_sum(a, n, k) + binom_sum(a, n, k + 1),
    decreases k,
{
    if k == 0 {
        lemma_pow0(a);
        assert(binom_sum(a, n + 1, 1) == binom_sum(a, n + 1, 0) + binom((n + 1) as nat, 0) * pow(a, 0));
        assert(binom_sum(a, n, 1) == binom_sum(a, n, 0) + binom(n, 0) * pow(a, 0));
    } else {
        let km1 = (k - 1) as nat;
        lemma_binom_sum_step(a, n, km1);
        lemma_pow_succ(a, km1);
        let s1 = binom_sum(a, n, km1);
        let s2 = binom_sum(a, n, k);
        let pk = pow(a, k);
        let pkm1 = pow(a, km1);
        assert(binom((n + 1) as nat, k) == binom(n, km1) + binom(n, k));
        assert(binom_sum(a, n + 1, k + 1) == binom_sum(a, n + 1, k) + binom((n + 1) as nat, k) * pk);
        assert(s2 == s1 + binom(n, km1) * pkm1);
        assert(binom_sum(a, n, k + 1) == s2 + binom(n, k) * pk);
        assert(pk == a * pkm1);
        assert(binom_sum(a, n + 1, k) == a * s1 + s2);
        assert((binom(n, km1) + binom(n, k)) * pk == a * (binom(n, km1) * pkm1) + binom(n, k) * pk)
            by (nonlinear_arith)
            requires
                pk == a * pkm1,
        ;
        assert(a * s2 == a * s1 + a * (binom(n, km1) * pkm1)) by (nonlinear_arith)
            requires
                s2 == s1 + binom(n, km1) * pkm1,
        ;
    }
}

/// The binomial theorem: `(a + 1)^n == sum_{i <= n} binom(n, i) a^i`.
pub proof fn lemma_binomial(a: int, n: nat)
    ensures
        pow(a + 1, n) == binom_sum(a, n, n + 1),
    decreases n,
{
    if n == 0 {
        lemma_pow0(a + 1);
        lemma_pow0(a);
        assert(binom_sum(a, 0, 1) == binom_sum(a, 0, 0) + binom(0, 0) * pow(a, 0));
    } else {
        let m = (n - 1) as nat;
        lemma_binomial(a, m);
        lemma_pow_succ(a + 1, m);
        lemma_binom_sum_step(a, m, n);
        lemma_binom_above(m, n);
        let s = binom_sum(a, m, n);
        assert(binom_sum(a, m, n + 1) == s + binom(m, n) * pow(a, n));
        assert(binom_sum(a, m, n + 1) == s);
        assert(pow(a + 1, n) == (a + 1) * s);
        assert((a + 1) * s == a * s + s) by (nonlinear_arith);
    }
}

/// Absorption: `k * binom(n, k) == n * binom(n - 1, k - 1)`.
proof fn lemma_absorption(n: nat, k: nat)
    requires
        n >= 1,
        k >= 1,
    ensures
        k * binom(n, k) == n * binom((n - 1) as nat, (k - 1) as nat),
    decreases n,
{
    if n == 1 {
        if k >= 2 {
            lemma_binom_above(1, k);
            lemma_binom_above(0, (k - 1) as nat);
            lemma_mul_basics(k as int);
        } else {
            assert(binom(0, 1) == 0);
            assert(binom(0, 0) == 1);
            assert(binom(1, 1) == binom(0, 0) + binom(0, 1));
            assert(k == 1);
        }
    } else {
        let m = (n - 1) as nat;
        lemma_absorption(m, k);
        // k * binom(n, k) = k * binom(m, k-1) + k * binom(m, k)
        assert(binom(n, k) == binom(m, (k - 1) as nat) + binom(m, k));
        let a = binom(m, (k - 1) as nat);
        let b = binom(m, k);
        assert(k * b == m * binom((m - 1) as nat, (k - 1) as nat));
        if k >= 2 {
            lemma_absorption(m, (k - 1) as nat);
            assert((k - 1) * a == m * binom((m - 1) as nat, (k - 2) as nat));
            assert(a == binom((m - 1) as nat, (k - 2) as nat) + binom((m - 1) as nat, (k - 1) as nat));
            let c = binom((m - 1) as nat, (k - 2) as nat);
            let d = binom((m - 1) as nat, (k - 1) as nat);
            assert(k * binom(n, k) == n * a) by (nonlinear_arith)
                requires
                    binom(n, k) == a + b,
                    k * b == m * d,
                    (k - 1) * a == m * c,
                    a == c + d,
                    n == m + 1,
            ;
        } else {
            assert(k == 1);
            assert(binom(m, 0) == 1);
            assert(binom(n, 1) == binom(m, 0) + binom(m, 1));
            assert(1 * binom(m, 1) == m * binom((m - 1) as nat, 0));
            assert(binom((m - 1) as nat, 0) == 1);
            assert(k * binom(n, k) == n * binom(m, 0)) by (nonlinear_arith)
                requires
                    k == 1,
                    binom(n, 1) == binom(m, 0) + binom(m, 1),
                    1 * binom(m, 1) == m * 1,
                    binom(m, 0) == 1,
                    n == m + 1,
            ;
        }
    }
}

proof fn lemma_prime_divides_binom(p: nat, k: nat)
    requires
        is_prime(p as int),
        0 < k < p,
    ensures
        (binom(p, k) as int) % (p as int) == 0,
{
    lemma_absorption(p, k);
    let c = binom((p - 1) as nat, (k - 1) as nat);
    lemma_mod_multiples_basic(c as int, p as int);
    lemma_mul_is_commutative(c as int, p as int);
    assert(((k as int) * (binom(p, k) as int)) % (p as int) == 0);
    lemma_euclid(p as int, k as int, binom(p, k) as int);
}

/// For `1 <= k <= p` all middle binomial terms vanish mod `p`.
proof fn lemma_binom_sum_mod_prime(a: int, p: nat, k: nat)
    requires
        is_prime(p as int),
        1 <= k <= p,
    ensures
        binom_sum(a, p, k) % (p as int) == 1int % (p as int),
    decreases k,
{
    let pi = p as int;
    if k == 1 {
        lemma_pow0(a);
        assert(binom_sum(a, p, 1) == binom_sum(a, p, 0) + binom(p, 0) * pow(a, 0));
    } else {
        let km1 = (k - 1) as nat;
        lemma_binom_sum_mod_prime(a, p, km1);
        lemma_prime_divides_binom(p, km1);
        let t = binom(p, km1) * pow(a, km1);
        assert(t % pi == 0) by {
            lemma_mul_mod_noop_left(binom(p, km1) as int, pow(a, km1), pi);
        }
        lemma_add_mod_noop(binom_sum(a, p, km1), t, pi);
        lemma_mod_twice(1, pi);
    }
}

/// Fermat's little theorem, first form, for naturals: `a^p == a (mod p)`.
proof fn lemma_fermat_nat(a: nat, p: nat)
    requires
        is_prime(p as int),
    ensures
        pow(a as int, p) % (p as int) == (a as int) % (p as int),
    decreases a,
{
    let pi = p as int;
    if a == 0 {
        lemma0_pow(p);
    } else {
        let b = (a - 1) as nat;
        lemma_fermat_nat(b, p);
        lemma_binomial(b as int, p);
        // binom_sum(b, p, p+1) = binom_sum(b, p, p) + b^p
        assert(binom_sum(b as int, p, p + 1) == binom_sum(b as int, p, p) + binom(p, p) * pow(
            b as int,
            p,
        ));
        assert(binom(p, p) == 1) by {
            lemma_absorption(p, p);
            lemma_binom_above((p - 1) as nat, p);
            // binom(p,p) = binom(p-1,p-1) + binom(p-1,p) = binom(p-1,p-1); by induction it is 1
            lemma_binom_diag(p);
        }
        lemma_binom_sum_mod_prime(b as int, p, p);
        lemma_add_mod_noop(binom_sum(b as int, p, p), pow(b as int, p), pi);
        lemma_add_mod_noop(1, b as int, pi);
    }
}

proof fn lemma_binom_diag(n: nat)
    ensures
        binom(n, n) == 1,
    decreases n,
{
    if n > 0 {
        lemma_binom_diag((n - 1) as nat);
        lemma_binom_above((n - 1) as nat, n);
    }
}

/// Fermat's little theorem over `P`: `a^(P-1) == 1 (mod P)` for `a` not
/// divisible by `P`.
pub proof fn lemma_fermat(a: int)
    requires
        a % modulus() != 0,
    ensures
        pow(a, (modulus() - 1) as nat) % modulus() == 1,
{
    let p = modulus();
    let pn = p as nat;
    let e = (p - 1) as nat;
    lemma_p_is_prime();
    let am = a % p;
    lemma_fermat_nat(am as nat, pn);
    lemma_pow_mod_noop(a, pn, p);
    lemma_pow_mod_noop(a, e, p);
    lemma_pow_succ(am, e);
    // am * (am^e - 1) == 0 mod p
    let x = pow(am, e);
    assert(pow(am, pn) == am * x);
    lemma_mod_twice(a, p);
    assert((am * x) % p == am % p);
    assert((am * (x - 1)) % p == 0) by {
        assert(am * (x - 1) == am * x - am) by (nonlinear_arith);
        lemma_sub_mod_noop(am * x, am, p);
        lemma_mod_self_0(p);
    }
    lemma_euclid(p, am, x - 1);
    assert(x % p == 1) by {
        lemma_add_mod_noop(x - 1, 1, p);
    }
}

/// `a * a^(P-2) == 1 (mod P)` for `a` not divisible by `P`.
pub proof fn lemma_inverse(a: int)
    requires
        a % modulus() != 0,
    ensures
        (a * pow(a, (modulus() - 2) as nat)) % modulus() == 1,
{
    lemma_fermat(a);
    lemma_pow_succ(a, (modulus() - 2) as nat);
}

/// A product is zero in the field only if a factor is.
pub proof fn lemma_field_no_zero_divisors(a: int, b: int)
    requires
        a % modulus() != 0,
        b % modulus() != 0,
    ensures
        (a * b) % modulus() != 0,
{
    let p = modulus();
    lemma_p_is_prime();
    if (a * b) % p == 0 {
        lemma_mul_mod_noop_left(a, b, p);
        lemma_mod_bound(a, p);
        lemma_euclid(p, a % p, b);
    }
}

} // verus!
