//! Normal-domain F_p (KoalaBear) univariate polynomial arithmetic.
//!
//! Polynomials are `Vec<u32>` of coefficients low-degree-first; the zero
//! polynomial is the empty vec. Coefficients are normal-domain (not
//! Montgomery) field elements.
use vstd::arithmetic::div_mod::*;
use vstd::arithmetic::mul::*;
use vstd::arithmetic::power::*;
use vstd::arithmetic::power2::{
    lemma2_to64, lemma_pow2, lemma_pow2_pos, lemma_pow2_strictly_increases, lemma_pow2_unfold, pow2,
};
use vstd::bits::{
    lemma_u64_pow2_no_overflow, lemma_u64_shl_is_mul, lemma_usize_pow2_no_overflow,
    lemma_usize_shl_is_mul, lemma_usize_shr_is_div,
};
use vstd::prelude::*;

use crate::field::{lemma_inverse, modulus};
use crate::poly_eval::lemma_peval_congruent;
use crate::poly_divides::{
    divides, lemma_divides_rem, lemma_exact_quotient_divides, lemma_monic_divides, lemma_root_of_multiple, lemma_divides_coefs, lemma_divides_dividend, lemma_divides_into_monic, lemma_divides_monic,
    lemma_divides_remainder, lemma_divides_self, lemma_divides_zero,
};
use crate::poly_ring::{
    lemma_quot_len,
    congruent, eqm, lemma_congruent_rem, lemma_congruent_same, lemma_congruent_trans,
    lemma_has_rem_facts, lemma_mul_spec_len, lemma_mulmod_step, lemma_ppow_add, lemma_ppow_one,
    lemma_rem_congruent, ppow,
};
use crate::poly_spec::{
    lemma_euclid_len,
    lead, res_seq, res_spec, signed,
    divides_within_ntt, lemma_divmod_trim_args, rem_chain_fits, res_chain_fits, lemma_conv_upto_stable, lemma_conv_high_zero,
    trunc_spec, lemma_trunc_coef, lemma_mul_spec_ext,
    euclid, gcd_spec, inv_spec, monic, lemma_monic_canon,
    lemma_unit_cancel, lemma_mod_sub_mod_zero, lemma_mod_sub_rel, lemma_quotient_by_constant,
    lemma_rem_trim_args, has_rem,
    lemma_conv_ext, lemma_conv_update, lemma_conv_zero_left, lemma_conv_short, rem_spec, quot_spec,
    lemma_divmod_is_spec,
    add_coefs, conv_coefs, deriv_coefs, max_len, scalar_coefs, sub_coefs,
    from_fn, lemma_from_fn_reduced,
    add_spec, canon, coef, conv, conv_upto, degree, deriv_spec, is_divmod, lemma_add_spec_coef,
    lemma_is_trim_of, lemma_mul_spec_coef, lemma_ops_canon, lemma_scalar_spec_coef, lemma_trim,
    lemma_trim_canon, lemma_trimmed_eq, mul_spec, peval, reduced, scalar_spec, sub_spec, trim_spec,
    trimmed,
};
use crate::ntt_spec::{
    lemma_conv_theorem, lemma_level_ext,
    at_level, carry_rev, good_root, lemma_butterfly_positions, lemma_carry_rev,
    lemma_inverse_root_is_good, lemma_level_zero, lemma_pow2_divides, lemma_rev_bound,
    lemma_rev_involution, lemma_rev_zero, lemma_root_is_good, lemma_small_div_mod, level, rev_bits,
    root_pow,
};
use crate::poly_algebra::{
    delta, lemma_conv_assoc, lemma_conv_comm, lemma_conv_prefix, lemma_conv_rev, lemma_conv_unit,
    lemma_newton, lemma_rev_seq_facts, rev_seq,
};
use crate::P;

verus! {

const PU64: u64 = 2130706433;

pub type Poly = Vec<u32>;

// ---------------------------------------------------------------------------
// field helpers
// ---------------------------------------------------------------------------

pub(crate) fn fadd(a: u32, b: u32) -> (r: u32)
    requires
        a < P,
        b < P,
    ensures
        r < P,
        r as int == ((a as int) + (b as int)) % modulus(),
{
    let s = a + b;
    if s >= P {
        proof {
            lemma_mod_sub_multiples_vanish(s as int, modulus());
            lemma_small_mod((s - P) as nat, P as nat);
        }
        s - P
    } else {
        proof {
            lemma_small_mod(s as nat, P as nat);
        }
        s
    }
}

pub(crate) fn fsub(a: u32, b: u32) -> (r: u32)
    requires
        a < P,
        b < P,
    ensures
        r < P,
        r as int == ((a as int) - (b as int)) % modulus(),
{
    if a >= b {
        proof {
            lemma_small_mod((a - b) as nat, P as nat);
        }
        a - b
    } else {
        proof {
            lemma_mod_add_multiples_vanish((a as int) - (b as int), modulus());
            lemma_small_mod((a + P - b) as nat, P as nat);
        }
        a + P - b
    }
}

pub(crate) fn fmul(a: u32, b: u32) -> (r: u32)
    ensures
        r < P,
        r as int == ((a as int) * (b as int)) % modulus(),
{
    proof {
        lemma_mul_upper_bound(a as int, u32::MAX as int, b as int, u32::MAX as int);
    }
    ((a as u64 * b as u64) % PU64) as u32
}

fn fmul_add2(a0: u32, b0: u32, a1: u32, b1: u32) -> (r: u32)
    requires
        a0 < P,
        b0 < P,
        a1 < P,
        b1 < P,
    ensures
        r < P,
        r as int == ((a0 as int) * (b0 as int) + (a1 as int) * (b1 as int)) % modulus(),
{
    proof {
        lemma_mul_upper_bound(a0 as int, P as int, b0 as int, P as int);
        lemma_mul_upper_bound(a1 as int, P as int, b1 as int, P as int);
    }
    (((a0 as u64 * b0 as u64) + (a1 as u64 * b1 as u64)) % PU64) as u32
}

/// One step of square-and-multiply preserves `r * a^e (mod p)`.
pub proof fn lemma_pow_step(r: int, a: int, e: nat)
    ensures
        (r * pow(a, e)) % modulus() == ((if e % 2 == 1 { (r * a) % modulus() } else { r }) * pow(
            (a * a) % modulus(),
            e / 2,
        )) % modulus(),
{
    let p = modulus();
    let h = e / 2;
    let bit = e % 2;
    lemma_fundamental_div_mod(e as int, 2);
    lemma_pow_adds(a, (2 * h) as nat, bit as nat);
    lemma_pow_multiplies(a, 2, h);
    lemma_square_is_pow2(a);
    assert(pow(a, 2) == a * a) by {
        reveal(pow);
    }
    assert(e == (2 * h) + bit);
    let big = pow(a * a, h);
    assert(pow(a, e) == big * pow(a, bit));
    lemma_pow_mod_noop(a * a, h, p);
    // r * a^e == (r * a^bit) * big
    assert(r * pow(a, e) == (r * pow(a, bit)) * big) by (nonlinear_arith)
        requires
            pow(a, e) == big * pow(a, bit),
    ;
    lemma_mul_mod_noop_right(r * pow(a, bit), big, p);
    lemma_mul_mod_noop_right(r * pow(a, bit), pow((a * a) % p, h), p);
    if bit == 1 {
        lemma_pow1(a);
        lemma_mul_mod_noop_left(r * a, pow((a * a) % p, h), p);
    } else {
        lemma_pow0(a);
        lemma_mul_basics(r);
    }
}

pub(crate) fn fpow(a: u64, e: u64) -> (r: u32)
    ensures
        r < P,
        r as int == pow(a as int, e as nat) % modulus(),
{
    let ghost a0 = a;
    let ghost e0 = e;
    let mut a = a % PU64;
    let mut e = e;
    let mut r: u64 = 1;
    proof {
        lemma_pow_mod_noop(a0 as int, e0 as nat, modulus());
        lemma_mul_basics(pow(a as int, e as nat));
    }
    while e > 0
        invariant
            a < PU64,
            r < PU64,
            (r * pow(a as int, e as nat)) % modulus() == pow(a0 as int, e0 as nat) % modulus(),
        decreases e,
    {
        proof {
            lemma_pow_step(r as int, a as int, e as nat);
            lemma_mul_upper_bound(r as int, P as int, a as int, P as int);
            lemma_mul_upper_bound(a as int, P as int, a as int, P as int);
        }
        assert((e & 1 == 1) == (e % 2 == 1)) by (bit_vector);
        if e & 1 == 1 {
            r = r * a % PU64;
        }
        a = a * a % PU64;
        assert(e >> 1 == e / 2) by (bit_vector);
        e = e >> 1;
    }
    proof {
        lemma_pow0(a as int);
        lemma_small_mod(r as nat, P as nat);
    }
    r as u32
}

pub(crate) fn fpow_small_exp(a: u32, e: i64) -> (r: u32)
    requires
        a < P,
        e >= 0,
    ensures
        r < P,
        r as int == pow(a as int, e as nat) % modulus(),
{
    match e {
        0 => {
            proof {
                lemma_pow0(a as int);
            }
            1
        },
        1 => {
            proof {
                lemma_pow1(a as int);
                lemma_small_mod(a as nat, P as nat);
            }
            a
        },
        2 => {
            proof {
                reveal_with_fuel(pow, 3);
            }
            fmul(a, a)
        },
        3 => {
            let sq = fmul(a, a);
            proof {
                reveal_with_fuel(pow, 4);
                lemma_mul_mod_noop_left((a as int) * (a as int), a as int, modulus());
                assert(pow(a as int, 3) == (a as int) * (a as int) * (a as int)) by (nonlinear_arith)
                    requires
                        pow(a as int, 3) == (a as int) * ((a as int) * ((a as int) * 1)),
                ;
            }
            fmul(sq, a)
        },
        _ => fpow(a as u64, e as u64),
    }
}

/// `a^(P-2)`, the inverse of `a` when `a` is not zero mod P.
pub(crate) fn finv(a: u32) -> (r: u32)
    ensures
        r < P,
        r as int == pow(a as int, (modulus() - 2) as nat) % modulus(),
        (a as int) % modulus() != 0 ==> ((a as int) * (r as int)) % modulus() == 1,
{
    let r = fpow(a as u64, (P - 2) as u64);
    proof {
        if (a as int) % modulus() != 0 {
            lemma_inverse(a as int);
            lemma_mul_mod_noop_right(a as int, pow(a as int, (modulus() - 2) as nat), modulus());
        }
    }
    r
}

// ---------------------------------------------------------------------------
// trimming and degree
// ---------------------------------------------------------------------------

fn copy_slice(f: &[u32]) -> (v: Poly)
    ensures
        v@ == f@,
{
    let mut v: Vec<u32> = Vec::new();
    let mut i: usize = 0;
    while i < f.len()
        invariant
            i <= f.len(),
            v@ == f@.subrange(0, i as int),
        decreases f.len() - i,
    {
        v.push(f[i]);
        i += 1;
        assert(v@ =~= f@.subrange(0, i as int));
    }
    assert(f@ =~= f@.subrange(0, f.len() as int));
    v
}

/// `f` without its trailing zero coefficients.
pub fn trim(f: &[u32]) -> (r: Poly)
    ensures
        r@ == trim_spec(f@),
{
    let mut v = copy_slice(f);
    trim_in_place(&mut v);
    v
}

fn trim_in_place(v: &mut Poly)
    ensures
        final(v)@ == trim_spec(old(v)@),
{
    while v.len() > 0 && v[v.len() - 1] == 0
        invariant
            trim_spec(v@) == trim_spec(old(v)@),
        decreases v.len(),
    {
        let ghost before = v@;
        v.pop();
        assert(v@ =~= before.drop_last());
    }
}

fn trim_owned(v: Poly) -> (r: Poly)
    ensures
        r@ == trim_spec(v@),
{
    let mut v = v;
    trim_in_place(&mut v);
    v
}

/// Degree; the zero polynomial has degree -1.
pub fn deg(f: &[u32]) -> (d: i64)
    requires
        f.len() < i64::MAX,
    ensures
        d as int == degree(f@),
{
    let mut n = f.len();
    assert(f@.subrange(0, f.len() as int) =~= f@);
    while n > 0 && f[n - 1] == 0
        invariant
            n <= f.len(),
            trim_spec(f@.subrange(0, n as int)) == trim_spec(f@),
        decreases n,
    {
        assert(f@.subrange(0, n as int).drop_last() =~= f@.subrange(0, n - 1));
        n -= 1;
    }
    n as i64 - 1
}


fn zeros(n: usize) -> (v: Poly)
    ensures
        v.len() == n,
        forall|i: int| 0 <= i < n ==> #[trigger] v[i] == 0,
{
    let mut v: Vec<u32> = Vec::new();
    let mut i: usize = 0;
    while i < n
        invariant
            i <= n,
            v.len() == i,
            forall|k: int| 0 <= k < i ==> #[trigger] v[k] == 0,
        decreases n - i,
    {
        v.push(0);
        i += 1;
    }
    v
}

/// `coef(f, i)` as an executable read.
fn coef_at(f: &[u32], i: usize) -> (c: u32)
    ensures
        c as int == coef(f@, i as int),
{
    if i < f.len() {
        f[i]
    } else {
        0
    }
}

/// `a + b`.
pub fn add(a: &[u32], b: &[u32]) -> (r: Poly)
    requires
        reduced(a@),
        reduced(b@),
    ensures
        r@ == add_spec(a@, b@),
{
    let n = if a.len() >= b.len() { a.len() } else { b.len() };
    let ghost c = add_coefs(a@, b@);
    let mut r: Vec<u32> = Vec::new();
    let mut i: usize = 0;
    while i < n
        invariant
            i <= n,
            n == max_len(a@, b@),
            c == add_coefs(a@, b@),
            reduced(a@),
            reduced(b@),
            r@ == from_fn(i as nat, c),
        decreases n - i,
    {
        let ai = coef_at(a, i);
        let bi = coef_at(b, i);
        let v = fadd(ai, bi);
        proof {
            lemma_mod_bound(c(i as int), modulus());
            assert(c(i as int) == coef(a@, i as int) + coef(b@, i as int));
        }
        r.push(v);
        i += 1;
        assert(r@ =~= from_fn(i as nat, c));
    }
    trim(&r)
}

/// `a - b`.
pub fn sub(a: &[u32], b: &[u32]) -> (r: Poly)
    requires
        reduced(a@),
        reduced(b@),
    ensures
        r@ == sub_spec(a@, b@),
{
    let n = if a.len() >= b.len() { a.len() } else { b.len() };
    let ghost c = sub_coefs(a@, b@);
    let mut r: Vec<u32> = Vec::new();
    let mut i: usize = 0;
    while i < n
        invariant
            i <= n,
            n == max_len(a@, b@),
            c == sub_coefs(a@, b@),
            reduced(a@),
            reduced(b@),
            r@ == from_fn(i as nat, c),
        decreases n - i,
    {
        let ai = coef_at(a, i);
        let bi = coef_at(b, i);
        let v = fsub(ai, bi);
        proof {
            lemma_mod_bound(c(i as int), modulus());
            assert(c(i as int) == coef(a@, i as int) - coef(b@, i as int));
        }
        r.push(v);
        i += 1;
        assert(r@ =~= from_fn(i as nat, c));
    }
    trim(&r)
}

/// `c * a` for a field scalar `c`.
pub fn scalar(a: &[u32], c: u32) -> (r: Poly)
    ensures
        r@ == scalar_spec(a@, c as int),
{
    let c0 = c;
    let c = c % P;
    let ghost g = scalar_coefs(a@, c0 as int);
    if c == 0 {
        proof {
            lemma_from_fn_reduced(a.len() as nat, g);
            assert forall|i: int| #[trigger] coef(Seq::<u32>::empty(), i) == coef(
                from_fn(a.len() as nat, g),
                i,
            ) by {
                if 0 <= i < a.len() {
                    lemma_mul_mod_noop_right(coef(a@, i), c0 as int, modulus());
                }
            }
            lemma_is_trim_of(Seq::<u32>::empty(), from_fn(a.len() as nat, g));
        }
        return Vec::new();
    }
    let mut r: Vec<u32> = Vec::new();
    let mut i: usize = 0;
    while i < a.len()
        invariant
            i <= a.len(),
            c == c0 % P,
            g == scalar_coefs(a@, c0 as int),
            r@ == from_fn(i as nat, g),
        decreases a.len() - i,
    {
        let v = fmul(a[i], c);
        proof {
            lemma_mul_mod_noop_right(a[i as int] as int, c0 as int, modulus());
            lemma_mod_bound(g(i as int), modulus());
            assert(g(i as int) == coef(a@, i as int) * (c0 as int));
        }
        r.push(v);
        i += 1;
        assert(r@ =~= from_fn(i as nat, g));
    }
    trim(&r)
}

/// Schoolbook multiplication.
pub fn mul_schoolbook(a: &[u32], b: &[u32]) -> (r: Poly)
    requires
        a.len() + b.len() <= usize::MAX,
    ensures
        r@ == mul_spec(a@, b@),
{
    if a.len() == 0 || b.len() == 0 {
        return Vec::new();
    }
    let n = a.len() + b.len() - 1;
    let mut r = zeros(n);
    let mut i: usize = 0;
    assert forall|k: int| 0 <= k < n implies #[trigger] r[k] as int == conv_upto(a@, b@, k, 0) % modulus() by {
        assert(r[k] == 0);
        assert(conv_upto(a@, b@, k, 0) == 0);
        assert(0int % modulus() == 0);
    }
    while i < a.len()
        invariant
            i <= a.len(),
            n == a.len() + b.len() - 1,
            r.len() == n,
            forall|k: int| 0 <= k < n ==> #[trigger] r[k] < P,
            forall|k: int| 0 <= k < n ==> #[trigger] r[k] as int == conv_upto(a@, b@, k, i as int) % modulus(),
        decreases a.len() - i,
    {
        let ai = a[i];
        if ai != 0 {
            let mut j: usize = 0;
            while j < b.len()
                invariant
                    i < a.len(),
                    j <= b.len(),
                    ai == a[i as int],
                    n == a.len() + b.len() - 1,
                    r.len() == n,
                    forall|k: int| 0 <= k < n ==> #[trigger] r[k] < P,
                    forall|k: int| 0 <= k < n ==> #[trigger] r[k] as int == (conv_upto(a@, b@, k, i as int) + (if i <= k < i + j {
                        (ai as int) * coef(b@, k - i)
                    } else {
                        0
                    })) % modulus(),
                decreases b.len() - j,
            {
                let bj = b[j];
                let t = fmul(ai, bj);
                let old = r[i + j];
                let v = fadd(old, t);
                proof {
                    let k = (i + j) as int;
                    let base = conv_upto(a@, b@, k, i as int);
                    assert(old as int == base % modulus());
                    lemma_add_mod_noop(base, (ai as int) * (bj as int), modulus());
                    lemma_mod_twice(base, modulus());
                    lemma_mod_twice((ai as int) * (bj as int), modulus());
                }
                r.set(i + j, v);
                j += 1;
            }
            proof {
                assert forall|k: int| 0 <= k < n implies #[trigger] r[k] as int == conv_upto(
                    a@,
                    b@,
                    k,
                    i + 1,
                ) % modulus() by {
                    if !(i <= k < i + b.len()) {
                        assert(coef(b@, k - i) == 0);
                    }
                }
            }
        } else {
            proof {
                assert forall|k: int| 0 <= k < n implies #[trigger] r[k] as int == conv_upto(
                    a@,
                    b@,
                    k,
                    i + 1,
                ) % modulus() by {
                    assert(coef(a@, i as int) == 0);
                    lemma_mul_basics(coef(b@, k - i));
                }
            }
        }
        i += 1;
    }
    proof {
        let ghost c = conv_coefs(a@, b@);
        assert(r@ =~= from_fn(n as nat, c)) by {
            assert forall|k: int| 0 <= k < n implies #[trigger] r@[k] == from_fn(n as nat, c)[k] by {
                lemma_small_mod(r[k] as nat, P as nat);
            }
        }
    }
    trim(&r)
}

/// Horner evaluation `f(x)`.
pub fn eval(f: &[u32], x: u32) -> (r: u32)
    requires
        reduced(f@),
    ensures
        r < P,
        r as int == peval(f@, x as int) % modulus(),
{
    let mut acc: u32 = 0;
    let mut i: usize = f.len();
    assert(f@.subrange(f.len() as int, f.len() as int) =~= Seq::<u32>::empty());
    assert(peval(Seq::<u32>::empty(), x as int) == 0);
    proof {
        lemma_small_mod(0, P as nat);
    }
    while i > 0
        invariant
            i <= f.len(),
            reduced(f@),
            acc < P,
            acc as int == peval(f@.subrange(i as int, f.len() as int), x as int) % modulus(),
        decreases i,
    {
        let c = f[i - 1];
        let m = fmul(acc, x);
        let next = fadd(m, c);
        proof {
            let tail = f@.subrange(i as int, f.len() as int);
            let s = f@.subrange(i - 1, f.len() as int);
            assert(s.drop_first() =~= tail);
            let pv = peval(tail, x as int);
            lemma_mul_mod_noop_left(pv, x as int, modulus());
            lemma_mul_is_commutative(pv, x as int);
            lemma_add_mod_noop(pv * (x as int), c as int, modulus());
            lemma_mod_twice(pv * (x as int), modulus());
            lemma_small_mod(c as nat, P as nat);
        }
        acc = next;
        i -= 1;
    }
    assert(f@.subrange(0, f.len() as int) =~= f@);
    acc
}

/// Formal derivative.
pub fn deriv(f: &[u32]) -> (r: Poly)
    requires
        f.len() <= u32::MAX,
    ensures
        r@ == deriv_spec(f@),
{
    if f.len() <= 1 {
        return Vec::new();
    }
    let ghost g = deriv_coefs(f@);
    let mut r: Vec<u32> = Vec::new();
    let mut i: usize = 1;
    while i < f.len()
        invariant
            1 <= i <= f.len(),
            f.len() <= u32::MAX,
            g == deriv_coefs(f@),
            r@ == from_fn((i - 1) as nat, g),
        decreases f.len() - i,
    {
        let v = fmul((i as u32) % P, f[i]);
        proof {
            lemma_mul_mod_noop_left(i as int, f[i as int] as int, modulus());
            lemma_mod_bound(g(i - 1), modulus());
            assert(g(i - 1) == (i as int) * coef(f@, i as int));
        }
        r.push(v);
        i += 1;
        assert(r@ =~= from_fn((i - 1) as nat, g));
    }
    trim(&r)
}


// ---------------------------------------------------------------------------
// division
// ---------------------------------------------------------------------------

/// `q * b + a` agrees with `target` coefficient-wise in F_p.
pub open spec fn division_rel(q: Seq<u32>, b: Seq<u32>, a: Seq<u32>, target: Seq<u32>) -> bool {
    forall|k: int| #[trigger] ((conv(q, b, k) + coef(a, k)) % modulus()) == coef(target, k) % modulus()
}

proof fn lemma_step_rel(x: int, y: int, d: int)
    ensures
        ((x + d) + ((y - d) % modulus())) % modulus() == (x + y) % modulus(),
{
    lemma_add_mod_noop_right(x + d, y - d, modulus());
}

/// One elimination step of long division: subtract `c * x^shift * b` from
/// `a`, with `c` chosen to cancel coefficient `shift + deg b`.
fn eliminate(a: &mut Poly, b: &[u32], shift: usize, inv: u32) -> (c: u32)
    requires
        canon(b@),
        b.len() > 0,
        reduced(old(a)@),
        old(a).len() >= b.len() + shift,
        inv < P,
        ((b[b.len() - 1] as int) * (inv as int)) % modulus() == 1,
    ensures
        c < P,
        c as int == ((old(a)[b.len() - 1 + shift] as int) * (inv as int)) % modulus(),
        final(a).len() == old(a).len(),
        reduced(final(a)@),
        final(a)[b.len() - 1 + shift] == 0,
        forall|k: int| #[trigger] coef(final(a)@, k) == if shift <= k < shift + b.len() {
            (coef(old(a)@, k) - (c as int) * coef(b@, k - shift)) % modulus()
        } else {
            coef(old(a)@, k)
        },
{
    let bl = b.len();
    let top = a[bl - 1 + shift];
    let c = fmul(top, inv);
    let ghost a0 = a@;
    let ghost lc = b[bl - 1] as int;
    proof {
        // c * lc == top (mod p)
        let p = modulus();
        lemma_mul_mod_noop_left((top as int) * (inv as int), lc, p);
        lemma_mul_is_associative(top as int, inv as int, lc);
        lemma_mul_is_commutative(inv as int, lc);
        lemma_mul_mod_noop_right(top as int, (inv as int) * lc, p);
        lemma_mul_basics(top as int);
        lemma_small_mod(top as nat, P as nat);
        assert(((c as int) * lc) % p == top as int);
    }
    if c != 0 {
        let mut i: usize = 0;
        while i < bl
            invariant
                i <= bl,
                bl == b.len(),
                a.len() == a0.len(),
                a0.len() >= bl + shift,
                canon(b@),
                c < P,
                reduced(a@),
                forall|k: int| #[trigger] coef(a@, k) == if shift <= k < shift + i {
                    (coef(a0, k) - (c as int) * coef(b@, k - shift)) % modulus()
                } else {
                    coef(a0, k)
                },
            decreases bl - i,
        {
            let t = fmul(c, b[i]);
            let old = a[shift + i];
            let v = fsub(old, t);
            let ghost a_prev = a@;
            proof {
                lemma_sub_mod_noop_right(old as int, (c as int) * (b[i as int] as int), modulus());
                assert(coef(a_prev, (shift + i) as int) == coef(a0, (shift + i) as int));
            }
            a.set(shift + i, v);
            i += 1;
            proof {
                assert forall|k: int| #[trigger] coef(a@, k) == if shift <= k < shift + i {
                    (coef(a0, k) - (c as int) * coef(b@, k - shift)) % modulus()
                } else {
                    coef(a0, k)
                } by {
                    if k == shift + i - 1 {
                        assert(coef(a@, k) == v);
                        assert(coef(b@, k - shift) == b[i - 1]);
                    } else {
                        assert(coef(a@, k) == coef(a_prev, k));
                    }
                }
            }
        }
        proof {
            let k = (bl - 1 + shift) as int;
            assert(coef(a@, k) == (coef(a0, k) - (c as int) * lc) % modulus());
            lemma_sub_mod_noop_right(top as int, (c as int) * lc, modulus());
            lemma_mod_self_0(modulus());
        }
    } else {
        proof {
            assert forall|k: int| #[trigger] coef(a@, k) == if shift <= k < shift + bl {
                (coef(a0, k) - (c as int) * coef(b@, k - shift)) % modulus()
            } else {
                coef(a0, k)
            } by {
                if shift <= k < shift + bl {
                    lemma_mul_basics(coef(b@, k - shift));
                    lemma_small_mod(coef(a0, k) as nat, P as nat);
                }
            }
            assert(top == 0) by {
                lemma_mul_basics(lc);
            }
        }
    }
    c
}

/// Schoolbook long division: `(q, r)` with `a == q * b + r` and `deg r < deg b`.
pub fn divmod_schoolbook(a_in: &[u32], b_in: &[u32]) -> (res: (Poly, Poly))
    requires
        reduced(a_in@),
        reduced(b_in@),
        trim_spec(b_in@).len() > 0,
    ensures
        is_divmod(a_in@, b_in@, res.0@, res.1@),
{
    let a0 = trim(a_in);
    let b = trim(b_in);
    proof {
        lemma_trim(a_in@);
        lemma_trim(b_in@);
    }
    if a0.len() < b.len() {
        proof {
            assert forall|k: int| #[trigger] ((conv(Seq::<u32>::empty(), b_in@, k) + coef(a0@, k)) % modulus()) == coef(a_in@, k) % modulus() by {
            }
        }
        return (Vec::new(), a0);
    }
    let bl = b.len();
    let inv = finv(b[bl - 1]);
    proof {
        lemma_small_mod(b[bl - 1] as nat, P as nat);
    }
    let mut a = a0;
    let top = a.len() - bl;
    let mut q = zeros(top + 1);
    let mut shift = top + 1;
    proof {
        assert forall|k: int| #[trigger] ((conv(q@, b@, k) + coef(a@, k)) % modulus()) == coef(a0@, k) % modulus() by {
            lemma_conv_zero_left(q@, b@, k, q.len() as int);
        }
    }
    while shift > 0
        invariant
            shift <= top + 1,
            top + bl == a.len(),
            a.len() == a0.len(),
            bl == b.len(),
            canon(b@),
            bl > 0,
            inv < P,
            ((b[bl - 1] as int) * (inv as int)) % modulus() == 1,
            q.len() == top + 1,
            reduced(a@),
            reduced(q@),
            forall|j: int| 0 <= j < shift ==> #[trigger] q[j] == 0,
            forall|j: int| bl - 1 + shift <= j < a.len() ==> #[trigger] a[j] == 0,
            division_rel(q@, b@, a@, a0@),
        decreases shift,
    {
        shift -= 1;
        let ghost a_before = a@;
        let ghost q_before = q@;
        let c = eliminate(&mut a, &b, shift, inv);
        q.set(shift, c);
        proof {
            assert forall|k: int| #[trigger] ((conv(q@, b@, k) + coef(a@, k)) % modulus()) == coef(a0@, k) % modulus() by {
                lemma_conv_update(q_before, b@, k, shift as int, c);
                assert(q_before[shift as int] == 0);
                let x = conv(q_before, b@, k);
                let d = (c as int) * coef(b@, k - shift);
                assert((x + coef(a_before, k)) % modulus() == coef(a0@, k) % modulus());
                if shift <= k < shift + bl {
                    lemma_step_rel(x, coef(a_before, k), d);
                } else {
                    assert(coef(b@, k - shift) == 0);
                    lemma_mul_basics(c as int);
                }
            }
            assert forall|j: int| bl - 1 + shift <= j < a.len() implies #[trigger] a[j] == 0 by {
                if j > bl - 1 + shift {
                    assert(a_before[j] == 0);
                    assert(coef(a@, j) == coef(a_before, j));
                }
            }
        }
    }
    let qt = trim(&q);
    let rt = trim(&a);
    proof {
        lemma_trim(q@);
        lemma_trim(a@);
        assert(rt.len() < bl) by {
            if rt.len() >= bl {
                assert(rt@ == a@.subrange(0, rt.len() as int));
                assert(a[rt.len() - 1] == 0);
            }
        }
        assert forall|k: int| #[trigger] ((conv(qt@, b_in@, k) + coef(rt@, k)) % modulus()) == coef(a_in@, k) % modulus() by {
            lemma_conv_ext(qt@, q@, b_in@, b@, k);
        }
    }
    (qt, rt)
}


/// Schoolbook remainder without allocating the quotient.
pub fn rem_schoolbook(a_in: &[u32], b_in: &[u32]) -> (r: Poly)
    requires
        reduced(a_in@),
        reduced(b_in@),
        trim_spec(b_in@).len() > 0,
    ensures
        r@ == rem_spec(a_in@, b_in@),
{
    let b = trim(b_in);
    let a = trim(a_in);
    proof {
        lemma_trim(a_in@);
        lemma_trim(b_in@);
    }
    let r = rem_schoolbook_trimmed(a, &b);
    proof {
        lemma_rem_trim_args(a_in@, b_in@, r@);
    }
    r
}

/// Truncate to the first `n` coefficients (`n <= len`).
fn truncate_to(v: &mut Poly, n: usize)
    requires
        n <= old(v).len(),
    ensures
        final(v)@ == old(v)@.subrange(0, n as int),
{
    v.truncate(n);
}

/// Long division of canonical `a` by canonical nonzero `b`, returning only the
/// remainder. Quotients of length one and two take dedicated short paths.
fn rem_schoolbook_trimmed(a: Poly, b: &[u32]) -> (r: Poly)
    requires
        canon(a@),
        canon(b@),
        b.len() > 0,
    ensures
        r@ == rem_spec(a@, b@),
        has_rem(a@, b@, r@),
{
    let mut a = a;
    let ghost a0 = a@;
    proof {
        lemma_trim_canon(b@);
    }
    if a.len() < b.len() {
        proof {
            assert forall|k: int| #[trigger] ((conv(Seq::<u32>::empty(), b@, k) + coef(a0, k)) % modulus()) == coef(a0, k) % modulus() by {
            }
            lemma_divmod_is_spec(a0, b@, Seq::<u32>::empty(), a0);
        }
        return a;
    }
    let bl = b.len();
    let inv = finv(b[bl - 1]);
    proof {
        lemma_small_mod(b[bl - 1] as nat, P as nat);
    }
    let q_len = a.len() - bl + 1;
    if q_len == 1 {
        let c = eliminate(&mut a, b, 0, inv);
        let ghost a1 = a@;
        truncate_to(&mut a, bl - 1);
        let r = trim_owned(a);
        proof {
            let q = seq![c];
            lemma_trim(a@);
            assert(c != 0) by {
                lemma_small_mod(a0[bl - 1] as nat, P as nat);
                if c == 0 {
                    lemma_unit_cancel(a0[bl - 1] as int, inv as int, b[bl - 1] as int, 0);
                    lemma_mul_basics(b[bl - 1] as int);
                }
            }
            assert(canon(q));
            assert forall|k: int| #[trigger] ((conv(q, b@, k) + coef(r@, k)) % modulus()) == coef(a0, k) % modulus() by {
                lemma_conv_short(q, b@, k);
                let d = (c as int) * coef(b@, k);
                if 0 <= k < bl {
                    assert(coef(a1, k) == (coef(a0, k) - d) % modulus());
                    if k < bl - 1 {
                        assert(coef(r@, k) == coef(a1, k));
                    } else {
                        assert(a1[k] == 0);
                        assert(coef(r@, k) == 0);
                        lemma_mod_sub_mod_zero(coef(a0, k), d);
                    }
                    lemma_step_rel(0, coef(a0, k), d);
                } else {
                    assert(coef(b@, k) == 0);
                    lemma_mul_basics(c as int);
                    assert(coef(r@, k) == 0);
                }
            }
            lemma_divmod_is_spec(a0, b@, q, r@);
        }
        return r;
    }
    if q_len == 2 {
        if bl == 1 {
            proof {
                let q = seq![
                    (((a0[0] as int) * (inv as int)) % modulus()) as u32,
                    (((a0[1] as int) * (inv as int)) % modulus()) as u32,
                ];
                lemma_quotient_by_constant(a0, b@, inv, q);
                lemma_divmod_is_spec(a0, b@, q, Seq::<u32>::empty());
            }
            return Vec::new();
        }
        let q1 = fmul(a[bl], inv);
        let top = fsub(a[bl - 1], fmul(q1, b[bl - 2]));
        let q0 = fmul(top, inv);
        let ghost lc = b[bl - 1] as int;
        proof {
            lemma_unit_cancel(a0[bl as int] as int, inv as int, lc, q1 as int);
            lemma_unit_cancel(top as int, inv as int, lc, q0 as int);
            lemma_sub_mod_noop_right(a0[bl - 1] as int, (q1 as int) * (b[bl - 2] as int), modulus());
        }
        if q0 == 0 {
            let mut i: usize = 1;
            while i < bl - 1
                invariant
                    1 <= i <= bl - 1,
                    bl == b.len(),
                    bl >= 2,
                    a.len() == bl + 1,
                    a0.len() == bl + 1,
                    canon(b@),
                    q1 < P,
                    reduced(a@),
                    forall|k: int| #[trigger] coef(a@, k) == if 1 <= k < i {
                        (coef(a0, k) - (q1 as int) * coef(b@, k - 1)) % modulus()
                    } else {
                        coef(a0, k)
                    },
                decreases bl - 1 - i,
            {
                let t = fmul(q1, b[i - 1]);
                let v = fsub(a[i], t);
                let ghost a_prev = a@;
                proof {
                    assert(coef(a_prev, i as int) == coef(a0, i as int));
                    assert(coef(b@, i - 1) == b[i - 1]);
                    lemma_sub_mod_noop_right(a[i as int] as int, (q1 as int) * (b[i - 1] as int), modulus());
                }
                a.set(i, v);
                i += 1;
                proof {
                    assert forall|k: int| #[trigger] coef(a@, k) == if 1 <= k < i {
                        (coef(a0, k) - (q1 as int) * coef(b@, k - 1)) % modulus()
                    } else {
                        coef(a0, k)
                    } by {
                        if k == i - 1 {
                            assert(coef(a@, k) == v);
                        } else {
                            assert(coef(a@, k) == coef(a_prev, k));
                        }
                    }
                }
            }
        } else {
            let t0 = fmul(q0, b[0]);
            let v0 = fsub(a[0], t0);
            proof {
                lemma_sub_mod_noop_right(a[0] as int, (q0 as int) * (b[0] as int), modulus());
            }
            let ghost a_pre = a@;
            a.set(0, v0);
            proof {
                assert(coef(b@, -1) == 0);
                lemma_mul_basics(q1 as int);
                assert forall|k: int| #[trigger] coef(a@, k) == if 0 <= k < 1 {
                    (coef(a0, k) - ((q0 as int) * coef(b@, k) + (q1 as int) * coef(b@, k - 1))) % modulus()
                } else {
                    coef(a0, k)
                } by {
                    if k == 0 {
                        assert(coef(a@, k) == v0);
                    } else {
                        assert(coef(a@, k) == coef(a_pre, k));
                    }
                }
            }
            let mut i: usize = 1;
            while i < bl - 1
                invariant
                    1 <= i <= bl - 1,
                    bl == b.len(),
                    bl >= 2,
                    a.len() == bl + 1,
                    a0.len() == bl + 1,
                    canon(b@),
                    q1 < P,
                    q0 < P,
                    reduced(a@),
                    forall|k: int| #[trigger] coef(a@, k) == if 0 <= k < i {
                        (coef(a0, k) - ((q0 as int) * coef(b@, k) + (q1 as int) * coef(b@, k - 1))) % modulus()
                    } else {
                        coef(a0, k)
                    },
                decreases bl - 1 - i,
            {
                let t = fmul_add2(q0, b[i], q1, b[i - 1]);
                let v = fsub(a[i], t);
                let ghost a_prev = a@;
                proof {
                    assert(coef(a_prev, i as int) == coef(a0, i as int));
                    assert(coef(b@, i - 1) == b[i - 1]);
                    assert(coef(b@, i as int) == b[i as int]);
                    lemma_sub_mod_noop_right(
                        a[i as int] as int,
                        (q0 as int) * (b[i as int] as int) + (q1 as int) * (b[i - 1] as int),
                        modulus(),
                    );
                }
                a.set(i, v);
                i += 1;
                proof {
                    assert forall|k: int| #[trigger] coef(a@, k) == if 0 <= k < i {
                        (coef(a0, k) - ((q0 as int) * coef(b@, k) + (q1 as int) * coef(b@, k - 1))) % modulus()
                    } else {
                        coef(a0, k)
                    } by {
                        if k == i - 1 {
                            assert(coef(a@, k) == v);
                        } else {
                            assert(coef(a@, k) == coef(a_prev, k));
                        }
                    }
                }
            }
        }
        let ghost a1 = a@;
        truncate_to(&mut a, bl - 1);
        let r = trim_owned(a);
        proof {
            let q = seq![q0, q1];
            lemma_trim(a@);
            assert(canon(q)) by {
                assert(q1 != 0) by {
                    // the leading coefficient of a is nonzero
                    assert(a0[bl as int] != 0);
                    lemma_small_mod(a0[bl as int] as nat, P as nat);
                    if q1 == 0 {
                        lemma_mul_basics(lc);
                    }
                }
            }
            assert forall|k: int| #[trigger] ((conv(q, b@, k) + coef(r@, k)) % modulus()) == coef(a0, k) % modulus() by {
                lemma_conv_short(q, b@, k);
                let d = (q0 as int) * coef(b@, k) + (q1 as int) * coef(b@, k - 1);
                if 0 <= k < bl - 1 {
                    assert(coef(r@, k) == coef(a1, k));
                    if q0 == 0 {
                        if k == 0 {
                            assert(coef(b@, k - 1) == 0);
                            lemma_mul_basics(q1 as int);
                            lemma_mul_basics(coef(b@, k));
                            lemma_small_mod(coef(a0, k) as nat, P as nat);
                        } else {
                            lemma_mul_basics(coef(b@, k));
                        }
                    } else if k == 0 {
                        assert(coef(b@, k - 1) == 0);
                        lemma_mul_basics(q1 as int);
                    }
                    assert(coef(a1, k) == (coef(a0, k) - d) % modulus());
                    lemma_step_rel(0, coef(a0, k), d);
                } else if k == bl - 1 {
                    assert(coef(r@, k) == 0);
                    // q0 * lc == a_{bl-1} - q1 * b_{bl-2}
                    lemma_mod_sub_rel(coef(a0, k), (q1 as int) * coef(b@, k - 1), (q0 as int) * lc, top as int);
                } else if k == bl {
                    assert(coef(r@, k) == 0);
                    assert(coef(b@, k) == 0);
                    lemma_mul_basics(q0 as int);
                    lemma_small_mod(coef(a0, k) as nat, P as nat);
                } else {
                    assert(coef(r@, k) == 0);
                    assert(coef(b@, k) == 0);
                    assert(coef(b@, k - 1) == 0);
                    lemma_mul_basics(q0 as int);
                    lemma_mul_basics(q1 as int);
                }
            }
            lemma_divmod_is_spec(a0, b@, q, r@);
        }
        return r;
    }
    let top = a.len() - bl;
    let ghost mut q: Seq<u32> = Seq::new((top + 1) as nat, |j: int| 0u32);
    let mut shift = top + 1;
    proof {
        assert forall|k: int| #[trigger] ((conv(q, b@, k) + coef(a@, k)) % modulus()) == coef(a0, k) % modulus() by {
            lemma_conv_zero_left(q, b@, k, q.len() as int);
        }
    }
    while shift > 0
        invariant
            shift <= top + 1,
            top + bl == a.len(),
            a.len() == a0.len(),
            bl == b.len(),
            canon(b@),
            bl > 0,
            inv < P,
            ((b[bl - 1] as int) * (inv as int)) % modulus() == 1,
            q.len() == top + 1,
            reduced(a@),
            reduced(q),
            forall|j: int| 0 <= j < shift ==> #[trigger] q[j] == 0,
            forall|j: int| bl - 1 + shift <= j < a.len() ==> #[trigger] a[j] == 0,
            division_rel(q, b@, a@, a0),
            a0[a0.len() - 1] != 0,
            shift <= top ==> q[top as int] != 0,
            shift == top + 1 ==> a@ == a0,
        decreases shift,
    {
        shift -= 1;
        let ghost a_before = a@;
        let ghost q_before = q;
        let c = eliminate(&mut a, b, shift, inv);
        proof {
            q = q.update(shift as int, c);
            assert forall|k: int| #[trigger] ((conv(q, b@, k) + coef(a@, k)) % modulus()) == coef(a0, k) % modulus() by {
                lemma_conv_update(q_before, b@, k, shift as int, c);
                assert(q_before[shift as int] == 0);
                let x = conv(q_before, b@, k);
                let d = (c as int) * coef(b@, k - shift);
                assert((x + coef(a_before, k)) % modulus() == coef(a0, k) % modulus());
                if shift <= k < shift + bl {
                    lemma_step_rel(x, coef(a_before, k), d);
                } else {
                    assert(coef(b@, k - shift) == 0);
                    lemma_mul_basics(c as int);
                }
            }
            assert forall|j: int| bl - 1 + shift <= j < a.len() implies #[trigger] a[j] == 0 by {
                if j > bl - 1 + shift {
                    assert(a_before[j] == 0);
                    assert(coef(a@, j) == coef(a_before, j));
                }
            }
            if shift == top {
                // the first step reads the nonzero leading coefficient of a
                assert(a_before[bl - 1 + shift] == a0[a0.len() - 1]);
                lemma_small_mod(a0[a0.len() - 1] as nat, P as nat);
                if c == 0 {
                    lemma_unit_cancel(a0[a0.len() - 1] as int, inv as int, b[bl - 1] as int, 0);
                    lemma_mul_basics(b[bl - 1] as int);
                }
            }
        }
    }
    let r = trim_owned(a);
    proof {
        lemma_trim(a@);
        assert(r.len() < bl) by {
            if r.len() >= bl {
                assert(r@ == a@.subrange(0, r.len() as int));
                assert(a[r.len() - 1] == 0);
            }
        }
        lemma_divmod_is_spec(a0, b@, q, r@);
    }
    r
}


/// Monic GCD over F_p.
pub fn gcd(a_in: &[u32], b_in: &[u32]) -> (g: Poly)
    requires
        reduced(a_in@),
        reduced(b_in@),
    ensures
        g@ == gcd_spec(a_in@, b_in@),
        canon(g@),
        g.len() <= max_len(a_in@, b_in@),
        g.len() > 0 ==> g@.last() == 1,
        divides(g@, a_in@),
        divides(g@, b_in@),
        forall|d: Seq<u32>| #[trigger] divides(d, a_in@) && divides(d, b_in@) ==> divides(d, g@),
{
    proof {
        lemma_trim(a_in@);
        lemma_trim(b_in@);
        lemma_euclid_len(trim_spec(a_in@), trim_spec(b_in@));
    }
    let mut a = trim(a_in);
    let mut b = trim(b_in);
    proof {
        assert forall|d: Seq<u32>| #[trigger] divides(d, a@) && divides(d, b@) implies divides(d, a_in@) && divides(d, b_in@) by {
            lemma_divides_coefs(d, d, a@, a_in@);
            lemma_divides_coefs(d, d, b@, b_in@);
        }
        assert forall|d: Seq<u32>| #[trigger] divides(d, a_in@) && divides(d, b_in@) implies divides(d, a@) && divides(d, b@) by {
            lemma_divides_coefs(d, d, a_in@, a@);
            lemma_divides_coefs(d, d, b_in@, b@);
        }
    }
    while b.len() > 0
        invariant
            canon(a@),
            canon(b@),
            euclid(a@, b@) == euclid(trim_spec(a_in@), trim_spec(b_in@)),
            forall|d: Seq<u32>| #[trigger] divides(d, a@) && divides(d, b@) ==> divides(d, a_in@) && divides(d, b_in@),
            forall|d: Seq<u32>| #[trigger] divides(d, a_in@) && divides(d, b_in@) ==> divides(d, a@) && divides(d, b@),
        decreases b.len(),
    {
        let ghost av = a@;
        let r = rem_schoolbook_trimmed(a, &b);
        proof {
            lemma_trim_canon(b@);
            let q = choose|q: Seq<u32>| #[trigger] is_divmod(av, b@, q, r@);
            assert(is_divmod(av, b@, q, r@));
            assert(r.len() < b.len());
            assert forall|d: Seq<u32>| #[trigger] divides(d, b@) && divides(d, r@) implies divides(d, a_in@) && divides(d, b_in@) by {
                lemma_divides_dividend(av, b@, q, r@, d);
            }
            assert forall|d: Seq<u32>| #[trigger] divides(d, a_in@) && divides(d, b_in@) implies divides(d, b@) && divides(d, r@) by {
                lemma_divides_remainder(av, b@, q, r@, d);
            }
        }
        a = b;
        b = r;
    }
    proof {
        lemma_divides_self(a@);
        lemma_divides_zero(a@);
        assert(b@ =~= Seq::<u32>::empty());
        assert(divides(a@, a@) && divides(a@, b@));
    }
    if a.len() > 0 {
        let inv = finv(a[a.len() - 1]);
        let ghost a_fin = a@;
        let mut m: Vec<u32> = Vec::new();
        let mut i: usize = 0;
        while i < a.len()
            invariant
                a@ == a_fin,
                a.len() > 0,
                i <= a.len(),
                inv as int == inv_spec(a_fin.last() as int),
                m@ == monic(a_fin).subrange(0, i as int),
            decreases a.len() - i,
        {
            let v = fmul(a[i], inv);
            m.push(v);
            i += 1;
            assert(m@ =~= monic(a_fin).subrange(0, i as int));
        }
        proof {
            assert(monic(a_fin).subrange(0, a.len() as int) =~= monic(a_fin));
            lemma_monic_canon(a_fin);
            lemma_divides_monic(a_fin, a_in@);
            lemma_divides_monic(a_fin, b_in@);
            assert forall|d: Seq<u32>| #[trigger] divides(d, a_in@) && divides(d, b_in@) implies divides(d, m@) by {
                lemma_divides_into_monic(d, a_fin);
            }
        }
        m
    } else {
        a
    }
}


// ---------------------------------------------------------------------------
// NTT-backed multiplication
// ---------------------------------------------------------------------------

const TWO_ADICITY: usize = 24;

pub const MAX_NTT_LEN: usize = 16777216;

/// 3^127, a primitive 2^24-th root of unity in KoalaBear.
const ROOT_2_24: u32 = 1791270792;

const NTT_MUL_THRESHOLD: usize = 256;

const FAST_DIV_THRESHOLD: usize = 256;

/// Smallest power of two that is at least `x`.
fn next_pow2(x: usize) -> (r: usize)
    requires
        1 <= x <= MAX_NTT_LEN,
    ensures
        r >= x,
        r == 1 || r / 2 < x,
        r <= MAX_NTT_LEN,
        exists|e: nat| e <= 24 && r == pow2(e),
{
    let mut n: usize = 1;
    let ghost mut e: nat = 0;
    proof {
        lemma2_to64();
    }
    while n < x
        invariant
            1 <= x <= MAX_NTT_LEN,
            n == 1 || n / 2 < x,
            e <= 24,
            n == pow2(e),
            n <= MAX_NTT_LEN,
        decreases MAX_NTT_LEN - n,
    {
        proof {
            lemma2_to64();
            lemma_pow2_unfold(e + 1);
            if e >= 24 {
                if e > 24 {
                    lemma_pow2_strictly_increases(24, e);
                }
                assert(false);
            }
            if e + 1 < 24 {
                lemma_pow2_strictly_increases(e + 1, 24);
            }
        }
        n = n * 2;
        proof {
            e = e + 1;
        }
    }
    n
}

/// Polynomial multiplication. Small products use schoolbook; larger ones use
/// the KoalaBear NTT. The padded product length must not exceed 2^24 unless
/// an operand is zero, when the product is zero.
pub fn mul(a: &[u32], b: &[u32]) -> (r: Poly)
    requires
        reduced(a@),
        reduced(b@),
        trim_spec(a@).len() == 0 || trim_spec(b@).len() == 0 || trim_spec(a@).len() + trim_spec(b@).len()
            <= MAX_NTT_LEN + 1,
    ensures
        r@ == mul_spec(a@, b@),
{
    let a0 = trim(a);
    let b0 = trim(b);
    proof {
        lemma_trim(a@);
        lemma_trim(b@);
        lemma_mul_spec_ext(a0@, a@, b0@, b@);
    }
    if a0.len() == 0 || b0.len() == 0 {
        return Vec::new();
    }
    let out_len = a0.len() + b0.len() - 1;
    if out_len < NTT_MUL_THRESHOLD {
        return mul_schoolbook(&a0, &b0);
    }
    mul_ntt(&a0, &b0)
}


proof fn lemma_bit_facts(j: usize, bit: usize, e: usize)
    requires
        e < 32,
        bit == 1usize << e,
    ensures
        ((j & bit) != 0) == (((j >> e) & 1usize) == 1usize),
        (j & bit) != 0 ==> (j ^ bit) == j - bit,
        (j & bit) == 0 ==> (j ^ bit) == j + bit,
        bit >> 1usize == (if e == 0 { 0usize } else { 1usize << ((e - 1) as usize) }),
        ((j >> e) & 1usize == 1usize) == ((j >> e) % 2 == 1),
{
    assert(((j & bit) != 0) == (((j >> e) & 1usize) == 1usize)) by (bit_vector)
        requires
            e < 32,
            bit == 1usize << e,
    ;
    assert((j & bit) != 0 ==> (j ^ bit) == j - bit) by (bit_vector)
        requires
            e < 32,
            bit == 1usize << e,
    ;
    assert((j & bit) == 0 ==> (j ^ bit) == j + bit) by (bit_vector)
        requires
            e < 32,
            bit == 1usize << e,
    ;
    assert(bit >> 1usize == (if e == 0 { 0usize } else { 1usize << ((e - 1) as usize) })) by (bit_vector)
        requires
            e < 32,
            bit == 1usize << e,
    ;
    assert(((j >> e) & 1usize == 1usize) == ((j >> e) % 2 == 1)) by (bit_vector);
}

/// `rev(i - 1)` to `rev(i)` by the bit-reversed increment.
fn rev_increment(j: usize, n: usize, Ghost(i): Ghost<int>, Ghost(l): Ghost<nat>) -> (r: usize)
    requires
        1 <= l <= 24,
        n == pow2(l),
        1 <= i < n,
        j as int == rev_bits(i - 1, l),
    ensures
        r as int == rev_bits(i, l),
{
    let ghost target = rev_bits(i, l);
    proof {
        lemma_carry_rev(i - 1, l);
        lemma_rev_bound(i, l);
        lemma_rev_bound(i - 1, l);
        lemma_usize_pow2_no_overflow(l);
        lemma_usize_pow2_no_overflow((l - 1) as nat);
        lemma_usize_shl_is_mul(1, (l - 1) as usize);
        lemma_pow2_unfold(l);
        lemma_usize_shr_is_div(n, 1);
        lemma2_to64();
    }
    let mut j = j;
    let mut bit = n >> 1;
    let ghost mut e: int = l - 1;
    while j & bit != 0
        invariant
            -1 <= e < 24,
            e >= 0 ==> bit == pow2(e as nat) && bit == 1usize << (e as usize),
            e < 0 ==> bit == 0,
            carry_rev(j as int, e) == target,
            j < n,
            n == pow2(l),
            l <= 24,
        decreases e + 1,
    {
        proof {
            if e < 0 {
                assert(j & 0usize == 0usize) by (bit_vector);
            }
            lemma_bit_facts(j, bit, e as usize);
            lemma_usize_shr_is_div(j, e as usize);
            if e > 0 {
                lemma_usize_pow2_no_overflow((e - 1) as nat);
                lemma_usize_shl_is_mul(1, (e - 1) as usize);
                lemma_pow2_unfold(e as nat);
            }
        }
        j ^= bit;
        bit >>= 1;
        proof {
            e = e - 1;
        }
    }
    proof {
        if e >= 0 {
            lemma_bit_facts(j, bit, e as usize);
            lemma_usize_shr_is_div(j, e as usize);
        } else {
            assert(j & 0usize == 0usize) by (bit_vector);
            assert(j ^ 0usize == j) by (bit_vector);
        }
    }
    j ^= bit;
    j
}

/// Permute `a` into bit-reversed order.
fn bit_reverse(a: &mut Vec<u32>, Ghost(l): Ghost<nat>)
    requires
        l <= 24,
        old(a).len() == pow2(l),
    ensures
        final(a).len() == old(a).len(),
        forall|x: int| 0 <= x < final(a).len() ==> #[trigger] final(a)[x] == old(a)[rev_bits(x, l)],
{
    let n = a.len();
    let ghost a0 = a@;
    proof {
        lemma_pow2_pos(l);
        lemma_rev_zero(l);
        assert forall|x: int| 0 <= x < n implies #[trigger] a[x] == if x < 1 || rev_bits(x, l) < 1 {
            a0[rev_bits(x, l)]
        } else {
            a0[x]
        } by {
            lemma_rev_bound(x, l);
            if rev_bits(x, l) < 1 {
                lemma_rev_involution(x, l);
            }
        }
    }
    let mut j: usize = 0;
    let mut i: usize = 1;
    while i < n
        invariant
            1 <= i <= n,
            n == pow2(l),
            l <= 24,
            a.len() == n,
            a0.len() == n,
            j as int == rev_bits(i - 1, l),
            forall|x: int| 0 <= x < n ==> #[trigger] a[x] == if x < i || rev_bits(x, l) < i {
                a0[rev_bits(x, l)]
            } else {
                a0[x]
            },
        decreases n - i,
    {
        proof {
            if l == 0 {
                lemma_pow2(0);
                reveal(pow);
            }
        }
        j = rev_increment(j, n, Ghost(i as int), Ghost(l));
        let ghost before = a@;
        proof {
            lemma_rev_bound(i as int, l);
            lemma_rev_involution(i as int, l);
        }
        if i < j {
            let t = a[i];
            let u = a[j];
            a.set(i, u);
            a.set(j, t);
        }
        proof {
            assert forall|x: int| 0 <= x < n implies #[trigger] a[x] == if x < i + 1 || rev_bits(x, l) < i + 1 {
                a0[rev_bits(x, l)]
            } else {
                a0[x]
            } by {
                lemma_rev_bound(x, l);
                lemma_rev_involution(x, l);
                if x == i {
                    if i < j {
                        assert(a[x] == before[j as int]);
                        lemma_rev_bound(j as int, l);
                    }
                } else if x == j {
                    if i < j {
                        assert(a[x] == before[i as int]);
                    }
                } else {
                    assert(a[x] == before[x]);
                }
            }
        }
        i += 1;
    }
    proof {
        assert forall|x: int| 0 <= x < n implies #[trigger] a[x] == a0[rev_bits(x, l)] by {
            lemma_rev_bound(x, l);
        }
    }
}

/// Butterflies of one chunk `[start, start + 2 half)` at stage `s`.
fn ntt_chunk(
    a: &mut Vec<u32>,
    start: usize,
    half: usize,
    wlen: u32,
    Ghost(a0): Ghost<Seq<u32>>,
    Ghost(rt): Ghost<int>,
    Ghost(l): Ghost<nat>,
    Ghost(s): Ghost<nat>,
)
    requires
        good_root(rt),
        1 <= s <= l <= 24,
        old(a).len() == pow2(l),
        half == pow2((s - 1) as nat),
        (start as int) % (pow2(s) as int) == 0,
        start + 2 * half <= old(a).len(),
        wlen as int == root_pow(rt, s) % modulus(),
        reduced(old(a)@),
        forall|x: int| 0 <= x < old(a).len() ==> #[trigger] old(a)[x] as int == if x < start {
            at_level(a0, rt, l, s, x)
        } else {
            at_level(a0, rt, l, (s - 1) as nat, x)
        },
    ensures
        final(a).len() == old(a).len(),
        reduced(final(a)@),
        forall|x: int| 0 <= x < final(a).len() ==> #[trigger] final(a)[x] as int == if x < start + 2 * half {
            at_level(a0, rt, l, s, x)
        } else {
            at_level(a0, rt, l, (s - 1) as nat, x)
        },
{
    let n = a.len();
    let mut w: u32 = 1;
    let mut i: usize = 0;
    proof {
        lemma_pow0(root_pow(rt, s));
        lemma_pow2_unfold(s);
    }
    while i < half
        invariant
            good_root(rt),
            1 <= s <= l <= 24,
            a.len() == n,
            n == pow2(l),
            half == pow2((s - 1) as nat),
            (start as int) % (pow2(s) as int) == 0,
            start + 2 * half <= n,
            wlen as int == root_pow(rt, s) % modulus(),
            i <= half,
            w < P,
            w as int == pow(root_pow(rt, s), i as nat) % modulus(),
            reduced(a@),
            forall|x: int| 0 <= x < n ==> #[trigger] a[x] as int == if x < start || (start <= x < start + i) || (start + half <= x < start + half + i) {
                at_level(a0, rt, l, s, x)
            } else {
                at_level(a0, rt, l, (s - 1) as nat, x)
            },
        decreases half - i,
    {
        let u = a[start + i];
        let y = a[start + i + half];
        let v = fmul(y, w);
        proof {
            lemma_butterfly_positions(a0, rt, l, s, start as int, i as int);
            lemma_mul_is_commutative(y as int, w as int);
            lemma_add_mod_noop_right(u as int, (w as int) * (y as int), modulus());
            lemma_sub_mod_noop_right(u as int, (w as int) * (y as int), modulus());
        }
        let ghost a_prev = a@;
        a.set(start + i, fadd(u, v));
        a.set(start + i + half, fsub(u, v));
        proof {
            lemma_pow_adds(root_pow(rt, s), i as nat, 1);
            lemma_pow1(root_pow(rt, s));
            lemma_mul_mod_noop(pow(root_pow(rt, s), i as nat), root_pow(rt, s), modulus());
            assert forall|x: int| 0 <= x < n implies #[trigger] a[x] as int == if x < start || (start <= x < start + i + 1) || (start + half <= x < start + half + i + 1) {
                at_level(a0, rt, l, s, x)
            } else {
                at_level(a0, rt, l, (s - 1) as nat, x)
            } by {
                if x != start + i && x != start + i + half {
                    assert(a[x] == a_prev[x]);
                }
            }
        }
        w = fmul(w, wlen);
        i += 1;
    }
}

/// One stage of the transform: all chunks of length `len = 2^s`.
fn ntt_stage(
    a: &mut Vec<u32>,
    len: usize,
    wlen: u32,
    Ghost(a0): Ghost<Seq<u32>>,
    Ghost(rt): Ghost<int>,
    Ghost(l): Ghost<nat>,
    Ghost(s): Ghost<nat>,
)
    requires
        good_root(rt),
        1 <= s <= l <= 24,
        old(a).len() == pow2(l),
        len == pow2(s),
        wlen as int == root_pow(rt, s) % modulus(),
        reduced(old(a)@),
        forall|x: int| 0 <= x < old(a).len() ==> #[trigger] old(a)[x] as int == at_level(a0, rt, l, (s - 1) as nat, x),
    ensures
        final(a).len() == old(a).len(),
        reduced(final(a)@),
        forall|x: int| 0 <= x < final(a).len() ==> #[trigger] final(a)[x] as int == at_level(a0, rt, l, s, x),
{
    let n = a.len();
    let half = len >> 1;
    proof {
        lemma_usize_shr_is_div(len, 1);
        lemma2_to64();
        lemma_pow2_pos((s - 1) as nat);
        lemma_pow2_unfold(s);
        lemma_pow2_pos(s);
        lemma_pow2_divides(s, l);
        if s < l {
            lemma_pow2_strictly_increases(s, l);
        }
    }
    let mut start: usize = 0;
    while start < n
        invariant
            good_root(rt),
            1 <= s <= l <= 24,
            a.len() == n,
            n == pow2(l),
            len == pow2(s),
            half == pow2((s - 1) as nat),
            len == 2 * half,
            len > 0,
            (n as int) % (len as int) == 0,
            wlen as int == root_pow(rt, s) % modulus(),
            (start as int) % (len as int) == 0,
            start <= n,
            reduced(a@),
            forall|x: int| 0 <= x < n ==> #[trigger] a[x] as int == if x < start {
                at_level(a0, rt, l, s, x)
            } else {
                at_level(a0, rt, l, (s - 1) as nat, x)
            },
        decreases n - start,
    {
        proof {
            // a whole chunk fits before n
            lemma_fundamental_div_mod(start as int, len as int);
            lemma_fundamental_div_mod(n as int, len as int);
            assert(start + len <= n) by (nonlinear_arith)
                requires
                    start == len * (start / len),
                    n == len * (n / len),
                    start < n,
                    len > 0,
            ;
        }
        ntt_chunk(a, start, half, wlen, Ghost(a0), Ghost(rt), Ghost(l), Ghost(s));
        start += len;
        proof {
            lemma_mod_add_multiples_vanish(start - len, len as int);
        }
    }
}

/// In-place number-theoretic transform of a vector of length `2^l <= 2^24`:
/// position `k` becomes `sum_m a_m w^(m k)` with `w` the `2^l`-th root derived
/// from the fixed root (or from its inverse when `invert`, followed by a
/// division by the length).
fn ntt(a: &mut Vec<u32>, invert: bool, Ghost(l): Ghost<nat>)
    requires
        l <= 24,
        old(a).len() == pow2(l),
        reduced(old(a)@),
    ensures
        final(a).len() == old(a).len(),
        reduced(final(a)@),
        forall|k: int| 0 <= k < final(a).len() ==> #[trigger] final(a)[k] as int == if invert {
            (level(old(a)@, pow(ROOT_2_24 as int, (modulus() - 2) as nat) % modulus(), l, l, 0, k) * inv_spec(pow2(l) as int)) % modulus()
        } else {
            level(old(a)@, ROOT_2_24 as int, l, l, 0, k)
        },
{
    let n = a.len();
    let ghost a0 = a@;
    proof {
        lemma_pow2_pos(l);
        lemma2_to64();
        if l < 24 {
            lemma_pow2_strictly_increases(l, 24);
        }
    }
    bit_reverse(a, Ghost(l));
    let root = if invert { finv(ROOT_2_24) } else { ROOT_2_24 };
    let ghost rt = root as int;
    proof {
        lemma_root_is_good();
        if invert {
            lemma_inverse_root_is_good(ROOT_2_24 as int, (modulus() - 2) as nat);
        }
        assert forall|x: int| 0 <= x < n implies #[trigger] a[x] as int == at_level(a0, rt, l, 0, x) by {
            lemma_rev_bound(x, l);
            lemma_level_zero(a0, rt, l, x);
            lemma_small_mod(a0[rev_bits(x, l)] as nat, P as nat);
        }
        assert forall|x: int| 0 <= x < n implies #[trigger] a[x] < P by {
            lemma_rev_bound(x, l);
        }
        lemma_pow2_unfold(1);
        lemma_pow2(0);
        reveal(pow);
    }
    let mut len: usize = 2;
    let mut log_len: usize = 1;
    while len <= n
        invariant
            n == pow2(l),
            n <= MAX_NTT_LEN,
            l <= 24,
            a.len() == n,
            good_root(rt),
            rt == root as int,
            1 <= log_len <= l + 1,
            len == pow2(log_len as nat),
            reduced(a@),
            forall|x: int| 0 <= x < n ==> #[trigger] a[x] as int == at_level(a0, rt, l, (log_len - 1) as nat, x),
        decreases l + 1 - log_len,
    {
        let ghost s: nat = log_len as nat;
        proof {
            if log_len > l {
                lemma_pow2_strictly_increases(l, log_len as nat);
            }
            lemma_u64_pow2_no_overflow((TWO_ADICITY - log_len) as nat);
            lemma_u64_shl_is_mul(1, (TWO_ADICITY - log_len) as u64);
        }
        let sh = 1u64 << (TWO_ADICITY - log_len);
        proof {
            assert(sh as nat == pow2((24 - s) as nat));
        }
        let wlen = fpow(root as u64, sh);
        proof {
            assert((root as u64) as int == rt);
            assert(pow((root as u64) as int, sh as nat) == pow(rt, pow2((24 - s) as nat)));
            assert(wlen as int == root_pow(rt, s) % modulus());
        }
        ntt_stage(a, len, wlen, Ghost(a0), Ghost(rt), Ghost(l), Ghost(s));
        proof {
            lemma_pow2_unfold(s + 1);
            if s + 1 < 25 {
                lemma2_to64();
            }
        }
        len = len * 2;
        log_len += 1;
    }
    proof {
        assert(log_len - 1 == l) by {
            if log_len - 1 < l {
                lemma_pow2_strictly_increases(log_len as nat, l);
            }
        }
        assert forall|x: int| 0 <= x < n implies #[trigger] a[x] as int == level(a0, rt, l, l, 0, x) by {
            lemma_small_div_mod(x, n as int);
        }
    }
    if invert {
        let inv_n = finv(n as u32);
        let ghost b = a@;
        let mut k: usize = 0;
        while k < n
            invariant
                k <= n,
                a.len() == n,
                b.len() == n,
                inv_n as int == inv_spec(n as int),
                forall|x: int| 0 <= x < n ==> #[trigger] a[x] as int == if x < k {
                    (b[x] as int * inv_n as int) % modulus()
                } else {
                    b[x] as int
                },
                forall|x: int| 0 <= x < n ==> #[trigger] a[x] < P,
            decreases n - k,
        {
            let v = fmul(a[k], inv_n);
            a.set(k, v);
            k += 1;
        }
    }
}

/// NTT convolution over KoalaBear. Supports products whose padded length is at
/// most 2^24, the field's maximum power-of-two root-of-unity length.
pub fn mul_ntt(a_in: &[u32], b_in: &[u32]) -> (r: Poly)
    requires
        reduced(a_in@),
        reduced(b_in@),
        trim_spec(a_in@).len() == 0 || trim_spec(b_in@).len() == 0 || trim_spec(a_in@).len() + trim_spec(
            b_in@,
        ).len() <= MAX_NTT_LEN + 1,
    ensures
        r@ == mul_spec(a_in@, b_in@),
{
    let a = trim(a_in);
    let b = trim(b_in);
    proof {
        lemma_trim(a_in@);
        lemma_trim(b_in@);
        lemma_mul_spec_ext(a@, a_in@, b@, b_in@);
    }
    if a.len() == 0 || b.len() == 0 {
        return Vec::new();
    }
    let out_len = a.len() + b.len() - 1;
    let n = next_pow2(out_len);
    let ghost l: nat = choose|e: nat| e <= 24 && n == pow2(e);
    let mut fa = zeros(n);
    let mut fb = zeros(n);
    let mut i: usize = 0;
    while i < n
        invariant
            i <= n,
            fa.len() == n,
            fb.len() == n,
            a.len() <= n,
            b.len() <= n,
            reduced(a@),
            reduced(b@),
            forall|x: int| 0 <= x < n ==> #[trigger] fa[x] as int == if x < i { coef(a@, x) } else { 0 },
            forall|x: int| 0 <= x < n ==> #[trigger] fb[x] as int == if x < i { coef(b@, x) } else { 0 },
        decreases n - i,
    {
        let ca = coef_at(&a, i);
        let cb = coef_at(&b, i);
        fa.set(i, ca);
        fb.set(i, cb);
        i += 1;
    }
    let ghost pa = fa@;
    let ghost pb = fb@;
    proof {
        assert forall|x: int| #[trigger] coef(pa, x) == coef(a@, x) by {
        }
        assert forall|x: int| #[trigger] coef(pb, x) == coef(b@, x) by {
        }
    }
    ntt(&mut fa, false, Ghost(l));
    ntt(&mut fb, false, Ghost(l));
    let mut k: usize = 0;
    while k < n
        invariant
            k <= n,
            fa.len() == n,
            fb.len() == n,
            n == pow2(l),
            reduced(fb@),
            forall|x: int| 0 <= x < n ==> #[trigger] fb[x] as int == level(pb, ROOT_2_24 as int, l, l, 0, x),
            forall|x: int| 0 <= x < n ==> #[trigger] fa[x] as int == if x < k {
                (level(pa, ROOT_2_24 as int, l, l, 0, x) * level(pb, ROOT_2_24 as int, l, l, 0, x)) % modulus()
            } else {
                level(pa, ROOT_2_24 as int, l, l, 0, x)
            },
            forall|x: int| 0 <= x < n ==> #[trigger] fa[x] < P,
        decreases n - k,
    {
        let v = fmul(fa[k], fb[k]);
        fa.set(k, v);
        k += 1;
    }
    let ghost h = fa@;
    proof {
        assert forall|x: int| 0 <= x < pow2(l) implies #[trigger] h[x] as int == (level(a@, 1791270792int, l, l, 0, x) * level(b@, 1791270792int, l, l, 0, x)) % modulus() by {
            lemma_level_ext(pa, a@, 1791270792int, l, x);
            lemma_level_ext(pb, b@, 1791270792int, l, x);
        }
    }
    ntt(&mut fa, true, Ghost(l));
    proof {
        assert forall|m: int| 0 <= m < out_len implies #[trigger] fa[m] as int == conv(a@, b@, m) % modulus() by {
            lemma_conv_theorem(a@, b@, h, l, m);
        }
    }
    truncate_to(&mut fa, out_len);
    proof {
        let c = conv_coefs(a@, b@);
        assert(fa@ =~= from_fn(out_len as nat, c)) by {
            assert forall|m: int| 0 <= m < out_len implies #[trigger] fa@[m] == from_fn(out_len as nat, c)[m] by {
                lemma_mod_bound(conv(a@, b@, m), modulus());
            }
        }
    }
    trim(&fa)
}

// ---------------------------------------------------------------------------
// fast division
// ---------------------------------------------------------------------------

/// `f` restricted to its first `n` coefficients, trimmed.
fn truncate(f: &[u32], n: usize) -> (r: Poly)
    ensures
        r@ == trunc_spec(f@, n as int),
{
    let m = if n < f.len() { n } else { f.len() };
    let mut v: Vec<u32> = Vec::new();
    let mut i: usize = 0;
    while i < m
        invariant
            i <= m,
            m <= f.len(),
            v@ == f@.subrange(0, i as int),
        decreases m - i,
    {
        v.push(f[i]);
        i += 1;
        assert(v@ =~= f@.subrange(0, i as int));
    }
    trim_owned(v)
}

/// `f` (trimmed) read backwards, trimmed.
fn reversed(f: &[u32]) -> (r: Poly)
    ensures
        r@ == trim_spec(rev_seq(trim_spec(f@), trim_spec(f@).len() as int)),
{
    let t = trim(f);
    let r = reverse_padded(&t, t.len());
    r
}

/// `f` read backwards over `n >= len f` slots, trimmed.
fn reverse_padded(f: &[u32], n: usize) -> (r: Poly)
    requires
        f.len() <= n,
    ensures
        r@ == trim_spec(rev_seq(f@, n as int)),
{
    let mut v: Vec<u32> = Vec::new();
    let mut i: usize = 0;
    while i < n
        invariant
            i <= n,
            f.len() <= n,
            v@ == rev_seq(f@, n as int).subrange(0, i as int),
        decreases n - i,
    {
        let c = coef_at(f, n - 1 - i);
        v.push(c);
        i += 1;
        assert(v@ =~= rev_seq(f@, n as int).subrange(0, i as int));
    }
    assert(v@ =~= rev_seq(f@, n as int));
    trim_owned(v)
}

/// Multiplicative inverse of `f` modulo x^n. Requires f(0) != 0.
fn inv_series(f_in: &[u32], n: usize) -> (g: Poly)
    requires
        0 < n <= 8388608,
        reduced(f_in@),
        coef(f_in@, 0) != 0,
    ensures
        canon(g@),
        g.len() <= n,
        forall|k: int| 0 <= k < n ==> #[trigger] (conv(f_in@, g@, k) % modulus()) == delta(k),
{
    let f = trim(f_in);
    proof {
        lemma_trim(f_in@);
        assert(coef(f@, 0) == coef(f_in@, 0));
    }
    let f0 = f[0];
    let inv0 = finv(f0);
    let mut g: Vec<u32> = Vec::new();
    g.push(inv0);
    let mut m: usize = 1;
    proof {
        lemma_small_mod(f0 as nat, P as nat);
        lemma_conv_comm(f@, g@, 0);
        lemma_conv_short(g@, f@, 0);
        lemma_mul_is_commutative(inv0 as int, f0 as int);
    }
    while m < n
        invariant
            0 < n <= 8388608,
            canon(f@),
            f.len() > 0,
            1 <= m <= n,
            canon(g@),
            g.len() <= m,
            forall|j: int| 0 <= j < m ==> #[trigger] (conv(f@, g@, j) % modulus()) == delta(j),
        decreases n - m,
    {
        let target = if m * 2 < n { m * 2 } else { n };
        let ft = truncate(&f, target);
        proof {
            lemma_trunc_coef(f@, target as int, 0);
            lemma_trim(f@.subrange(0, if (target as int) < f.len() { target as int } else { f.len() as int }));
        }
        let prod = self::mul(&ft, &g);
        let fg = truncate(&prod, target);
        proof {
            lemma_ops_canon(ft@, g@, 0);
            lemma_trunc_coef(prod@, target as int, 0);
        }
        let mut h = zeros(target);
        let first = if fg.len() > 0 { fg[0] } else { 0 };
        let v0 = fsub(2, first);
        h.set(0, v0);
        let mut i: usize = 1;
        while i < fg.len()
            invariant
                1 <= i,
                fg.len() <= target,
                h.len() == target,
                canon(fg@),
                h[0] == v0,
                forall|x: int| 1 <= x < target ==> #[trigger] h[x] as int == if x < i { (0 - coef(fg@, x)) % modulus() } else { 0 },
                forall|x: int| 0 <= x < target ==> #[trigger] h[x] < P,
            decreases fg.len() - i,
        {
            let v = fsub(0, fg[i]);
            h.set(i, v);
            i += 1;
        }
        proof {
            // h == 2 - f g (mod x^target)
            assert forall|j: int| 0 <= j < target implies #[trigger] (coef(h@, j) % modulus()) == (2 * delta(j) - conv(f@, g@, j)) % modulus() by {
                let p = modulus();
                lemma_trunc_coef(prod@, target as int, j);
                lemma_trunc_coef(f@, target as int, j);
                lemma_mul_spec_coef(ft@, g@, j);
                assert forall|x: int| 0 <= x <= j implies #[trigger] (coef(ft@, x) % p) == coef(f@, x) % p by {
                    lemma_trunc_coef(f@, target as int, x);
                }
                assert forall|x: int| 0 <= x <= j implies #[trigger] (coef(g@, x) % p) == coef(g@, x) % p by {
                }
                lemma_conv_prefix(ft@, f@, g@, g@, j);
                // coef(fg, j) == conv(f, g, j) (mod p)
                let cf = coef(fg@, j);
                assert(cf == conv(ft@, g@, j) % p);
                lemma_mod_twice(conv(ft@, g@, j), p);
                lemma_small_mod(coef(h@, j) as nat, p as nat);
                if j == 0 {
                    assert(first as int == cf);
                    lemma_sub_mod_noop(2, cf, p);
                    lemma_sub_mod_noop(2, conv(f@, g@, j), p);
                } else {
                    if j >= fg.len() {
                        assert(cf == 0);
                    }
                    lemma_sub_mod_noop(0, cf, p);
                    lemma_sub_mod_noop(0, conv(f@, g@, j), p);
                }
            }
        }
        proof {
            lemma_trim(g@);
            lemma_trim(h@);
        }
        let gh = self::mul(&g, &h);
        let g2 = truncate(&gh, target);
        proof {
            lemma_ops_canon(g@, h@, 0);
            lemma_trunc_coef(gh@, target as int, 0);
            assert forall|k: int| 0 <= k < target implies #[trigger] (conv(f@, g2@, k) % modulus()) == delta(k) by {
                lemma_newton(f@, g@, h@, m as int, target as int, k);
                assert forall|x: int| 0 <= x <= k implies #[trigger] (coef(g2@, x) % modulus()) == coef(mul_spec(g@, h@), x) % modulus() by {
                    lemma_trunc_coef(gh@, target as int, x);
                }
                assert forall|x: int| 0 <= x <= k implies #[trigger] (coef(f@, x) % modulus()) == coef(f@, x) % modulus() by {
                }
                lemma_conv_prefix(f@, f@, g2@, mul_spec(g@, h@), k);
            }
        }
        g = g2;
        m = target;
    }
    let r = truncate(&g, n);
    proof {
        lemma_trunc_coef(g@, n as int, 0);
        assert forall|i: int| #[trigger] coef(r@, i) == coef(g@, i) by {
            lemma_trunc_coef(g@, n as int, i);
        }
        lemma_trimmed_eq(r@, g@);
        assert forall|k: int| 0 <= k < n implies #[trigger] (conv(f_in@, r@, k) % modulus()) == delta(k) by {
            lemma_conv_ext(f_in@, f@, r@, g@, k);
        }
    }
    r
}

/// The top coefficients of `q * b`, for the quotient `q` obtained by reversal
/// and series inversion, are those of `a`.
proof fn lemma_fast_top(
    a: Seq<u32>,
    b: Seq<u32>,
    ar: Seq<u32>,
    inv: Seq<u32>,
    br: Seq<u32>,
    qr: Seq<u32>,
    q: Seq<u32>,
    q_len: int,
    kk: int,
)
    requires
        canon(a),
        canon(b),
        b.len() > 0,
        a.len() >= b.len(),
        q_len == a.len() - b.len() + 1,
        forall|x: int| 0 <= x < q_len ==> #[trigger] coef(ar, x) == coef(a, a.len() - 1 - x),
        forall|x: int| #[trigger] coef(br, x) == coef(b, b.len() - 1 - x),
        forall|j: int| 0 <= j < q_len ==> #[trigger] (conv(br, inv, j) % modulus()) == delta(j),
        qr == trunc_spec(mul_spec(ar, inv), q_len),
        q == trim_spec(rev_seq(qr, q_len)),
        b.len() - 1 <= kk <= a.len() - 1,
    ensures
        conv(q, b, kk) % modulus() == coef(a, kk),
{
    let p = modulus();
    let da = a.len() - 1;
    let i = da - kk;
    let rq = rev_seq(qr, q_len);
    lemma_trunc_coef(mul_spec(ar, inv), q_len, 0);
    lemma_trim(rq);
    lemma_conv_ext(q, rq, b, b, kk);
    lemma_conv_rev(rq, b, q_len, b.len() as int, i);
    let rrq = rev_seq(rq, q_len);
    let rb = rev_seq(b, b.len() as int);
    assert forall|x: int| #[trigger] coef(rrq, x) == coef(qr, x) by {
        lemma_trunc_coef(mul_spec(ar, inv), q_len, x);
    }
    assert forall|x: int| #[trigger] coef(rb, x) == coef(br, x) by {
    }
    lemma_conv_ext(rrq, qr, rb, br, i);
    assert forall|x: int| 0 <= x <= i implies #[trigger] (coef(qr, x) % p) == coef(mul_spec(ar, inv), x) % p by {
        lemma_trunc_coef(mul_spec(ar, inv), q_len, x);
    }
    assert forall|x: int| 0 <= x <= i implies #[trigger] (coef(br, x) % p) == coef(br, x) % p by {
    }
    lemma_conv_prefix(qr, mul_spec(ar, inv), br, br, i);
    lemma_conv_assoc(ar, inv, br, i);
    assert forall|j: int| 0 <= j <= i implies #[trigger] (coef(mul_spec(inv, br), j) % p) == delta(j) by {
        lemma_mul_spec_coef(inv, br, j);
        lemma_mod_twice(conv(inv, br, j), p);
        lemma_conv_comm(inv, br, j);
    }
    lemma_conv_unit(ar, mul_spec(inv, br), i);
    lemma_small_mod(coef(a, kk) as nat, p as nat);
}

/// The quotient and remainder produced by reversal and series inversion
/// satisfy the division relation.
#[verifier::rlimit(50)]
#[verifier::spinoff_prover]
proof fn lemma_fast_finish(
    a_in: Seq<u32>,
    b_in: Seq<u32>,
    a: Seq<u32>,
    b: Seq<u32>,
    ar: Seq<u32>,
    inv: Seq<u32>,
    br: Seq<u32>,
    qr: Seq<u32>,
    q: Seq<u32>,
    r: Seq<u32>,
    q_len: int,
)
    requires
        reduced(a_in),
        reduced(b_in),
        a == trim_spec(a_in),
        b == trim_spec(b_in),
        canon(a),
        canon(b),
        b.len() > 0,
        a.len() >= b.len(),
        q_len == a.len() - b.len() + 1,
        forall|x: int| 0 <= x < q_len ==> #[trigger] coef(ar, x) == coef(a, a.len() - 1 - x),
        forall|x: int| #[trigger] coef(br, x) == coef(b, b.len() - 1 - x),
        forall|j: int| 0 <= j < q_len ==> #[trigger] (conv(br, inv, j) % modulus()) == delta(j),
        qr == trunc_spec(mul_spec(ar, inv), q_len),
        q == trim_spec(rev_seq(qr, q_len)),
        canon(q),
        r == sub_spec(a, mul_spec(q, b)),
    ensures
        is_divmod(a_in, b_in, q, r),
{
    let mb = mul_spec(q, b);
    let p = modulus();
    lemma_trim(rev_seq(qr, q_len));
    lemma_trim(b_in);
    lemma_trim(a_in);
    let da = a.len() - 1;
    let db = b.len() - 1;
    lemma_ops_canon(q, b, 0);
    lemma_ops_canon(a, mb, 0);
    // coefficients of q*b at index >= db match a
    assert forall|kk: int| kk >= db implies #[trigger] coef(r, kk) == 0 by {
        lemma_add_spec_coef(a, mb, kk);
        lemma_mul_spec_coef(q, b, kk);
        if kk > da {
            assert(coef(a, kk) == 0);
            lemma_conv_upto_stable(q, b, kk, q.len() as int);
            lemma_conv_high_zero(q, b, kk, q.len() as int);
            lemma_mod_twice(0, p);
        } else {
            lemma_fast_top(a, b, ar, inv, br, qr, q, q_len as int, kk);
            lemma_small_mod(coef(a, kk) as nat, p as nat);
            lemma_sub_mod_noop(coef(a, kk), conv(q, b, kk), p);
            lemma_mod_twice(conv(q, b, kk), p);
            lemma_sub_mod_noop_right(coef(a, kk), conv(q, b, kk), p);
            assert(coef(r, kk) == (coef(a, kk) - coef(mb, kk)) % p);
            lemma_sub_mod_noop(coef(a, kk), coef(mb, kk), p);
            lemma_mod_self_0(p);
        }
    }
    assert(r.len() < b.len()) by {
        if r.len() >= b.len() {
            assert(coef(r, r.len() - 1) == 0);
        }
    }
    assert forall|k: int| #[trigger] ((conv(q, b_in, k) + coef(r, k)) % p) == coef(a_in, k) % p by {
        lemma_conv_ext(q, q, b_in, b, k);
        lemma_add_spec_coef(a, mb, k);
        lemma_mul_spec_coef(q, b, k);
        lemma_add_mod_noop_right(conv(q, b, k), coef(a, k) - coef(mb, k), p);
        lemma_sub_mod_noop_right(coef(a, k), conv(q, b, k), p);
    }
}

/// Division with remainder through reversal and Newton series inversion.
#[verifier::rlimit(40)]
fn divmod_fast(a_in: &[u32], b_in: &[u32]) -> (res: (Poly, Poly))
    requires
        reduced(a_in@),
        reduced(b_in@),
        trim_spec(b_in@).len() > 0,
        trim_spec(a_in@).len() <= MAX_NTT_LEN,
        trim_spec(a_in@).len() < trim_spec(b_in@).len() + 8388608,
    ensures
        is_divmod(a_in@, b_in@, res.0@, res.1@),
{
    let a = trim(a_in);
    let b = trim(b_in);
    proof {
        lemma_trim(a_in@);
        lemma_trim(b_in@);
    }
    if a.len() < b.len() {
        proof {
            assert forall|k: int| #[trigger] ((conv(Seq::<u32>::empty(), b_in@, k) + coef(a@, k)) % modulus()) == coef(a_in@, k) % modulus() by {
            }
        }
        return (Vec::new(), a);
    }
    let q_len = a.len() - b.len() + 1;
    let ra = reversed(&a);
    let ar = truncate(&ra, q_len);
    let br = reversed(&b);
    proof {
        lemma_trim_canon(a@);
        lemma_trim_canon(b@);
        lemma_rev_seq_facts(a@);
        lemma_rev_seq_facts(b@);
        lemma_trunc_coef(ra@, q_len as int, 0);
        lemma_trim(rev_seq(a@, a.len() as int));
        lemma_trim(rev_seq(b@, b.len() as int));
    }
    let inv = inv_series(&br, q_len);
    let prod = self::mul(&ar, &inv);
    let qr = truncate(&prod, q_len);
    proof {
        lemma_ops_canon(ar@, inv@, 0);
        lemma_trunc_coef(prod@, q_len as int, 0);
    }
    let q = reverse_padded(&qr, q_len);
    let ghost rq = rev_seq(qr@, q_len as int);
    proof {
        assert forall|x: int| 0 <= x < q_len implies #[trigger] coef(ar@, x) == coef(a@, a.len() - 1 - x) by {
            lemma_trunc_coef(ra@, q_len as int, x);
        }
        assert forall|x: int| #[trigger] coef(br@, x) == coef(b@, b.len() - 1 - x) by {
        }
    }
    proof {
        lemma_trim(rq);
        assert(reduced(rq)) by {
            assert forall|i: int| 0 <= i < rq.len() implies #[trigger] rq[i] < P by {
                lemma_trunc_coef(prod@, q_len as int, q_len - 1 - i);
            }
        }
        lemma_trim(rq);
    }
    let qb = self::mul(&q, &b);
    proof {
        lemma_ops_canon(q@, b@, 0);
    }
    let r = self::sub(&a, &qb);
    proof {
        lemma_fast_finish(a_in@, b_in@, a@, b@, ar@, inv@, br@, qr@, q@, r@, q_len as int);
    }
    (q, r)
}

/// Returns `(quotient, remainder)` with `deg(remainder) < deg(divisor)`.
/// Large quotients use reversal + Newton series inversion.
pub fn divmod(a_in: &[u32], b_in: &[u32]) -> (res: (Poly, Poly))
    requires
        reduced(a_in@),
        reduced(b_in@),
        trim_spec(b_in@).len() > 0,
        divides_within_ntt(a_in@, b_in@),
    ensures
        is_divmod(a_in@, b_in@, res.0@, res.1@),
{
    let a = trim(a_in);
    let b = trim(b_in);
    proof {
        lemma_trim(a_in@);
        lemma_trim(b_in@);
    }
    if a.len() < b.len() {
        proof {
            assert forall|k: int| #[trigger] ((conv(Seq::<u32>::empty(), b_in@, k) + coef(a@, k)) % modulus()) == coef(a_in@, k) % modulus() by {
            }
        }
        return (Vec::new(), a);
    }
    let q_len = a.len() - b.len() + 1;
    let res = if q_len < FAST_DIV_THRESHOLD {
        divmod_schoolbook(&a, &b)
    } else {
        divmod_fast(&a, &b)
    };
    proof {
        lemma_divmod_trim_args(a_in@, b_in@, res.0@, res.1@);
    }
    res
}

/// Remainder of `a` by `b`.
pub fn rem(a: &[u32], b: &[u32]) -> (r: Poly)
    requires
        reduced(a@),
        reduced(b@),
        trim_spec(b@).len() > 0,
        divides_within_ntt(a@, b@),
    ensures
        r@ == rem_spec(a@, b@),
        has_rem(a@, b@, r@),
{
    let a0 = trim(a);
    let b0 = trim(b);
    proof {
        lemma_trim(a@);
        lemma_trim(b@);
    }
    if a0.len() < b0.len() {
        proof {
            assert forall|k: int| #[trigger] ((conv(Seq::<u32>::empty(), b@, k) + coef(a0@, k)) % modulus()) == coef(a@, k) % modulus() by {
            }
            lemma_divmod_is_spec(a@, b@, Seq::<u32>::empty(), a0@);
        }
        return a0;
    }
    let q_len = a0.len() - b0.len() + 1;
    if q_len < FAST_DIV_THRESHOLD {
        let r = rem_schoolbook_trimmed(a0, &b0);
        proof {
            lemma_rem_trim_args(a@, b@, r@);
        }
        r
    } else {
        let res = divmod_fast(&a0, &b0);
        proof {
            lemma_divmod_trim_args(a@, b@, res.0@, res.1@);
            lemma_divmod_is_spec(a@, b@, res.0@, res.1@);
        }
        res.1
    }
}


/// base^e mod `m`, over F_p[x].
pub fn powmod(base: &[u32], e: u64, m: &[u32]) -> (r: Poly)
    requires
        reduced(base@),
        reduced(m@),
        0 < trim_spec(m@).len(),
        e > 0 ==> trim_spec(m@).len() <= 8388609,
        e > 0 ==> divides_within_ntt(base@, m@),
    ensures
        canon(r@),
        e == 0 ==> r@ == rem_spec(seq![1u32], m@),
        e > 0 ==> r@ == rem_spec(ppow(base@, e as nat), m@),
        e > 0 ==> has_rem(ppow(base@, e as nat), m@, r@),
        e > 0 ==> r.len() < trim_spec(m@).len(),
{
    if e == 0 {
        let one: Vec<u32> = vec![1u32];
        proof {
            assert(one@ == seq![1u32]);
            lemma_trim(one@);
        }
        let r = rem(&one, m);
        proof {
            lemma_has_rem_facts(one@, m@, r@);
        }
        return r;
    }
    let ghost dm = trim_spec(m@).len();
    let mut result: Vec<u32> = vec![1u32];
    let mut b = rem(base, m);
    let mut ee = e;
    let ghost mut acc: nat = 0;
    let ghost mut bexp: nat = 1;
    proof {
        lemma_has_rem_facts(base@, m@, b@);
        lemma_rem_congruent(base@, m@, b@);
        lemma_ppow_one(base@);
        assert forall|k: int| #[trigger] eqm(coef(base@, k), coef(ppow(base@, 1), k)) by {
        }
        lemma_congruent_same(base@, ppow(base@, 1), m@);
        lemma_congruent_trans(b@, base@, ppow(base@, 1), m@);
        assert(ppow(base@, 0) == seq![1u32]);
        assert forall|k: int| #[trigger] eqm(coef(result@, k), coef(ppow(base@, 0), k)) by {
        }
        lemma_congruent_same(result@, ppow(base@, 0), m@);
        assert(trimmed(result@));
    }
    while ee > 0
        invariant
            reduced(m@),
            dm == trim_spec(m@).len(),
            0 < dm <= 8388609,
            canon(result@),
            canon(b@),
            b.len() < dm,
            acc == 0 ==> result@ == seq![1u32],
            acc > 0 ==> result.len() < dm,
            congruent(result@, ppow(base@, acc), m@),
            congruent(b@, ppow(base@, bexp), m@),
            acc + ee * bexp == e,
            bexp > 0,
        decreases ee,
    {
        if ee % 2 == 1 {
            proof {
                lemma_trim_canon(result@);
                lemma_trim_canon(b@);
                lemma_mul_spec_len(result@, b@);
                lemma_ops_canon(result@, b@, 0);
                lemma_trim_canon(mul_spec(result@, b@));
            }
            let prod = self::mul(&result, &b);
            let nr = rem(&prod, m);
            proof {
                lemma_has_rem_facts(prod@, m@, nr@);
                lemma_mulmod_step(nr@, result@, b@, ppow(base@, acc), ppow(base@, bexp), m@);
                lemma_ppow_add(base@, acc, bexp);
                acc = acc + bexp;
            }
            result = nr;
        }
        proof {
            lemma_trim_canon(b@);
            lemma_mul_spec_len(b@, b@);
            lemma_ops_canon(b@, b@, 0);
            lemma_trim_canon(mul_spec(b@, b@));
        }
        let sq = self::mul(&b, &b);
        let nb = rem(&sq, m);
        proof {
            lemma_has_rem_facts(sq@, m@, nb@);
            lemma_mulmod_step(nb@, b@, b@, ppow(base@, bexp), ppow(base@, bexp), m@);
            lemma_ppow_add(base@, bexp, bexp);
            let ghost old_ee = ee as int;
            assert((acc + (old_ee / 2) * (bexp + bexp)) == acc + old_ee * bexp - (old_ee % 2) * bexp)
                by (nonlinear_arith)
                requires
                    old_ee >= 0;
            bexp = bexp + bexp;
        }
        b = nb;
        ee = ee / 2;
    }
    proof {
        if e > 0 {
            lemma_congruent_rem(ppow(base@, e as nat), m@, result@);
        }
    }
    result
}

/// Resultant Res(a, b) over F_p via the Euclidean remainder sequence.
/// Divisions with quotients of 256 or more coefficients go through the
/// transform, so the remainder sequence must fit it (always so for inputs of
/// at most `2^23` coefficients).
pub fn resultant(a_in: &[u32], b_in: &[u32]) -> (r: u32)
    requires
        reduced(a_in@),
        reduced(b_in@),
        a_in.len() < i64::MAX,
        b_in.len() < i64::MAX,
        (a_in.len() <= 8388608 && b_in.len() <= 8388608) || res_chain_fits(a_in@, b_in@),
    ensures
        r as int == res_spec(a_in@, b_in@),
        r < P,
{
    resultant_impl::<false>(a_in, b_in).0
}

/// Counters gathered over one run of the remainder sequence.
#[derive(Clone, Debug)]
pub struct ResultantStats {
    pub initial_deg_a: i64,
    pub initial_deg_b: i64,
    pub steps: usize,
    pub schoolbook_steps: usize,
    pub fast_steps: usize,
    pub q_len_1: usize,
    pub q_len_2: usize,
    pub q_len_3: usize,
    pub q_len_2_3: usize,
    pub q_len_4_15: usize,
    pub q_len_16_255: usize,
    pub q_len_fast: usize,
    pub max_q_len: usize,
    pub total_q_len: usize,
    pub total_divisor_len: usize,
    pub total_degree_drop: i64,
    pub max_degree_drop: i64,
    pub jump_events: Vec<ResultantJump>,
    pub zero_remainder: bool,
}

/// One remainder step whose quotient has at least 16 coefficients.
#[derive(Clone, Debug)]
pub struct ResultantJump {
    pub step: usize,
    pub q_len: usize,
    pub deg_a: i64,
    pub deg_b: i64,
    pub deg_r: i64,
    pub degree_drop: i64,
}

/// `1` when `b` holds, else `0`.
pub open spec fn one_if(b: bool) -> int {
    if b {
        1
    } else {
        0
    }
}

impl ResultantStats {
    /// No step recorded yet, with the given initial degrees.
    /// The counters agree with each other: every step is a schoolbook or a
    /// fast division and falls in exactly one quotient-length bucket, and a
    /// jump is recorded for every quotient of 16 or more coefficients.
    pub open spec fn counts_agree(&self) -> bool {
        &&& self.steps == self.schoolbook_steps + self.fast_steps
        &&& self.fast_steps == self.q_len_fast
        &&& self.q_len_2_3 == self.q_len_2 + self.q_len_3
        &&& self.steps == self.q_len_1 + self.q_len_2_3 + self.q_len_4_15 + self.q_len_16_255 + self.q_len_fast
        &&& self.jump_events@.len() == self.q_len_16_255 + self.q_len_fast
    }

    pub open spec fn is_fresh(&self, deg_a: int, deg_b: int) -> bool {
        &&& self.initial_deg_a == deg_a
        &&& self.initial_deg_b == deg_b
        &&& self.steps == 0
        &&& self.schoolbook_steps == 0
        &&& self.fast_steps == 0
        &&& self.q_len_1 == 0
        &&& self.q_len_2 == 0
        &&& self.q_len_3 == 0
        &&& self.q_len_2_3 == 0
        &&& self.q_len_4_15 == 0
        &&& self.q_len_16_255 == 0
        &&& self.q_len_fast == 0
        &&& self.max_q_len == 0
        &&& self.total_q_len == 0
        &&& self.total_divisor_len == 0
        &&& self.total_degree_drop == 0
        &&& self.max_degree_drop == 0
        &&& self.jump_events@.len() == 0
        &&& !self.zero_remainder
    }

    fn fresh(deg_a: i64, deg_b: i64) -> (s: Self)
        ensures
            s.is_fresh(deg_a as int, deg_b as int),
    {
        ResultantStats {
            initial_deg_a: deg_a,
            initial_deg_b: deg_b,
            steps: 0,
            schoolbook_steps: 0,
            fast_steps: 0,
            q_len_1: 0,
            q_len_2: 0,
            q_len_3: 0,
            q_len_2_3: 0,
            q_len_4_15: 0,
            q_len_16_255: 0,
            q_len_fast: 0,
            max_q_len: 0,
            total_q_len: 0,
            total_divisor_len: 0,
            total_degree_drop: 0,
            max_degree_drop: 0,
            jump_events: Vec::new(),
            zero_remainder: false,
        }
    }

    /// Records one remainder step: a quotient of `q_len` coefficients,
    /// dividing a polynomial of degree `deg_a` by one of degree `deg_b` and
    /// leaving a remainder of degree `deg_r`.
    fn record_step(&mut self, q_len: usize, deg_a: i64, deg_b: i64, deg_r: i64)
        requires
            0 <= deg_b < usize::MAX,
            deg_b < i64::MAX,
            old(self).steps < usize::MAX,
            old(self).schoolbook_steps < usize::MAX,
            old(self).fast_steps < usize::MAX,
            old(self).q_len_1 < usize::MAX,
            old(self).q_len_2 < usize::MAX,
            old(self).q_len_3 < usize::MAX,
            old(self).q_len_2_3 < usize::MAX,
            old(self).q_len_4_15 < usize::MAX,
            old(self).q_len_16_255 < usize::MAX,
            old(self).q_len_fast < usize::MAX,
            old(self).total_q_len + q_len <= usize::MAX,
            old(self).total_divisor_len + deg_b + 1 <= usize::MAX,
            i64::MIN <= deg_a - deg_r <= i64::MAX,
            i64::MIN <= old(self).total_degree_drop + (deg_a - deg_r) <= i64::MAX,
        ensures
            final(self).initial_deg_a == old(self).initial_deg_a,
            final(self).initial_deg_b == old(self).initial_deg_b,
            final(self).zero_remainder == old(self).zero_remainder,
            final(self).steps == old(self).steps + 1,
            final(self).max_q_len == if q_len > old(self).max_q_len { q_len } else { old(self).max_q_len },
            final(self).total_q_len == old(self).total_q_len + q_len,
            final(self).total_divisor_len == old(self).total_divisor_len + deg_b + 1,
            final(self).total_degree_drop == old(self).total_degree_drop + (deg_a - deg_r),
            final(self).max_degree_drop == if deg_a - deg_r > old(self).max_degree_drop {
                deg_a - deg_r
            } else {
                old(self).max_degree_drop as int
            },
            final(self).schoolbook_steps == old(self).schoolbook_steps + one_if(q_len < 256),
            final(self).fast_steps == old(self).fast_steps + one_if(q_len >= 256),
            final(self).q_len_1 == old(self).q_len_1 + one_if(q_len == 1),
            final(self).q_len_2 == old(self).q_len_2 + one_if(q_len == 2),
            final(self).q_len_3 == old(self).q_len_3 + one_if(q_len == 3),
            final(self).q_len_2_3 == old(self).q_len_2_3 + one_if(q_len == 2 || q_len == 3),
            final(self).q_len_4_15 == old(self).q_len_4_15 + one_if(4 <= q_len <= 15),
            final(self).q_len_16_255 == old(self).q_len_16_255 + one_if(16 <= q_len <= 255),
            final(self).q_len_fast == old(self).q_len_fast + one_if(q_len == 0 || q_len >= 256),
            final(self).jump_events@ == if q_len >= 16 {
                old(self).jump_events@.push(
                    (ResultantJump {
                        step: (old(self).steps + 1) as usize,
                        q_len,
                        deg_a,
                        deg_b,
                        deg_r,
                        degree_drop: (deg_a - deg_r) as i64,
                    }),
                )
            } else {
                old(self).jump_events@
            },
    {
        let divisor_len = (deg_b + 1) as usize;
        let degree_drop = deg_a - deg_r;
        self.steps += 1;
        if q_len > self.max_q_len {
            self.max_q_len = q_len;
        }
        self.total_q_len += q_len;
        self.total_divisor_len += divisor_len;
        self.total_degree_drop += degree_drop;
        if degree_drop > self.max_degree_drop {
            self.max_degree_drop = degree_drop;
        }
        if q_len < FAST_DIV_THRESHOLD {
            self.schoolbook_steps += 1;
        } else {
            self.fast_steps += 1;
        }
        if q_len == 1 {
            self.q_len_1 += 1;
        } else if q_len == 2 {
            self.q_len_2 += 1;
            self.q_len_2_3 += 1;
        } else if q_len == 3 {
            self.q_len_3 += 1;
            self.q_len_2_3 += 1;
        } else if 4 <= q_len && q_len <= 15 {
            self.q_len_4_15 += 1;
        } else if 16 <= q_len && q_len <= 255 {
            self.q_len_16_255 += 1;
        } else {
            self.q_len_fast += 1;
        }
        if q_len >= 16 {
            self.jump_events.push(
                ResultantJump { step: self.steps, q_len, deg_a, deg_b, deg_r, degree_drop },
            );
        }
    }
}

/// Resultant together with the counters of its remainder sequence.
pub fn resultant_profiled(a_in: &[u32], b_in: &[u32]) -> (res: (u32, ResultantStats))
    requires
        reduced(a_in@),
        reduced(b_in@),
        a_in.len() < i64::MAX,
        b_in.len() < i64::MAX,
        (a_in.len() <= 8388608 && b_in.len() <= 8388608) || res_chain_fits(a_in@, b_in@),
        a_in.len() * b_in.len() <= usize::MAX,
        a_in.len() + b_in.len() <= usize::MAX,
        a_in.len() + b_in.len() <= i64::MAX,
    ensures
        res.0 as int == res_spec(a_in@, b_in@),
        res.1.initial_deg_a == degree(a_in@),
        res.1.initial_deg_b == degree(b_in@),
        trim_spec(a_in@).len() == 0 || trim_spec(b_in@).len() == 0 ==> res.1.zero_remainder,
        (res.0 == 0) == res.1.zero_remainder,
        res.1.counts_agree(),
{
    resultant_impl::<true>(a_in, b_in)
}

/// The product of two naturals is odd exactly when both are.
pub(crate) proof fn lemma_parity_product(x: int, y: int)
    requires
        x >= 0,
        y >= 0,
    ensures
        ((x * y) % 2 == 1) == (x % 2 == 1 && y % 2 == 1),
{
    lemma_mul_mod_noop(x, y, 2);
    let a = x % 2;
    let b = y % 2;
    assert(0 <= a < 2 && 0 <= b < 2);
    if a == 0 {
        assert(a * b == 0);
    } else if b == 0 {
        assert(a * b == 0);
    } else {
        assert(a * b == 1) by (nonlinear_arith)
            requires
                a == 1,
                b == 1;
    }
}

/// One factor of the resultant: the running product after a remainder step
/// equals the product before it, read against the longer sequence.
pub(crate) proof fn lemma_res_step(acc: int, w: int, rr: int, m: int, n: int)
    requires
        0 <= acc < P,
    ensures
        (((signed(m, n, acc) * (w % modulus())) % modulus()) * rr) % modulus() == (acc * ((signed(m, n, w) * rr) % modulus())) % modulus(),
{
    let p = modulus();
    let s: int = if (m * n) % 2 == 1 { -1 } else { 1 };
    if (m * n) % 2 == 1 {
        assert(s * acc == 0 - acc && s * w == 0 - w) by (nonlinear_arith)
            requires
                s == -1;
    } else {
        assert(s * acc == acc);
        assert(s * w == w);
    }
    assert(signed(m, n, acc) == (s * acc) % p);
    assert(signed(m, n, w) == (s * w) % p);
    lemma_mul_mod_noop(s * acc, w, p);
    lemma_mul_mod_noop_left(signed(m, n, acc) * (w % p), rr, p);
    lemma_mul_mod_noop_left((s * acc) * w, rr, p);
    lemma_mul_mod_noop_left(s * w, rr, p);
    lemma_mul_mod_noop_right(acc, (s * w) * rr, p);
    assert((s * acc) * w * rr == acc * ((s * w) * rr)) by (nonlinear_arith);
}

fn resultant_impl<const PROFILE: bool>(a_in: &[u32], b_in: &[u32]) -> (res: (u32, ResultantStats))
    requires
        reduced(a_in@),
        reduced(b_in@),
        a_in.len() < i64::MAX,
        b_in.len() < i64::MAX,
        (a_in.len() <= 8388608 && b_in.len() <= 8388608) || res_chain_fits(a_in@, b_in@),
        PROFILE ==> a_in.len() * b_in.len() <= usize::MAX,
        PROFILE ==> a_in.len() + b_in.len() <= usize::MAX,
        PROFILE ==> a_in.len() + b_in.len() <= i64::MAX,
    ensures
        res.0 as int == res_spec(a_in@, b_in@),
        res.0 < P,
        res.1.initial_deg_a == degree(a_in@),
        res.1.initial_deg_b == degree(b_in@),
        trim_spec(a_in@).len() == 0 || trim_spec(b_in@).len() == 0 ==> res.1.zero_remainder,
        !PROFILE ==> res.1.steps == 0 && res.1.jump_events@.len() == 0,
        res.1.counts_agree(),
        PROFILE ==> (res.0 == 0) == res.1.zero_remainder,
{
    let mut a = trim(a_in);
    let mut b = trim(b_in);
    proof {
        lemma_trim(a_in@);
        lemma_trim(b_in@);
        lemma_trim_canon(a@);
        lemma_trim_canon(b@);
    }
    let ia = deg(&a);
    let ib = deg(&b);
    let mut stats = ResultantStats::fresh(ia, ib);
    if a.len() == 0 || b.len() == 0 {
        stats.zero_remainder = true;
        return (0, stats);
    }
    let mut res: u32 = 1;
    if a.len() < b.len() {
        let t = a;
        a = b;
        b = t;
        if (a.len() - 1) % 2 == 1 && (b.len() - 1) % 2 == 1 {
            res = fsub(0, res);
        }
        proof {
            let da = a.len() - 1;
            let db = b.len() - 1;
            lemma_parity_product(da, db);
            assert(((db * da) % 2 == 1) == ((da * db) % 2 == 1)) by (nonlinear_arith);
            lemma_small_mod(res_seq(a@, b@) as nat, P as nat);
            if (da * db) % 2 == 1 {
                lemma_mul_mod_noop_left(-1, res_seq(a@, b@), modulus());
                lemma_mod_add_multiples_vanish(-1, modulus());
            }
        }
    } else {
        proof {
            lemma_small_mod(res_seq(a@, b@) as nat, P as nat);
        }
    }
    let ghost a0 = a.len() as int;
    let ghost b0 = b.len() as int;
    proof {
        if a_in.len() <= 8388608 && b_in.len() <= 8388608 {
            lemma_short_chain_fits(a@, b@);
        }
        assert(rem_chain_fits(a@, b@));
        assert(b0 * b0 <= a_in.len() * b_in.len()) by (nonlinear_arith)
            requires
                0 <= b0 <= a0,
                b0 <= a_in.len(),
                b0 <= b_in.len(),
                a0 <= a_in.len() || a0 <= b_in.len();
    }
    while b.len() > 1
        invariant
            canon(a@),
            canon(b@),
            1 <= b.len() <= a.len() < i64::MAX,
            rem_chain_fits(a@, b@),
            res < P,
            res_spec(a_in@, b_in@) == (res as int * res_seq(a@, b@)) % modulus(),
            stats.initial_deg_a == degree(a_in@),
            stats.initial_deg_b == degree(b_in@),
            !stats.zero_remainder,
            trim_spec(a_in@).len() > 0,
            trim_spec(b_in@).len() > 0,
            0 < b0 <= a0 < i64::MAX,
            PROFILE ==> b0 * b0 <= usize::MAX,
            PROFILE ==> a0 + b0 <= usize::MAX,
            PROFILE ==> a0 + b0 <= i64::MAX,
            !PROFILE ==> stats.is_fresh(degree(a_in@), degree(b_in@)),
            PROFILE ==> stats.steps + b.len() <= b0,
            PROFILE ==> stats.schoolbook_steps <= stats.steps,
            PROFILE ==> stats.fast_steps <= stats.steps,
            PROFILE ==> stats.q_len_1 <= stats.steps,
            PROFILE ==> stats.q_len_2 <= stats.steps,
            PROFILE ==> stats.q_len_3 <= stats.steps,
            PROFILE ==> stats.q_len_2_3 <= stats.steps,
            PROFILE ==> stats.q_len_4_15 <= stats.steps,
            PROFILE ==> stats.q_len_16_255 <= stats.steps,
            PROFILE ==> stats.q_len_fast <= stats.steps,
            PROFILE ==> stats.total_q_len == a0 - a.len() + stats.steps,
            PROFILE ==> stats.total_divisor_len <= stats.steps * b0,
            PROFILE ==> stats.total_degree_drop == a0 + b0 - a.len() - b.len(),
            stats.counts_agree(),
            res != 0,
        decreases b.len(),
    {
        let da = (a.len() - 1) as i64;
        let db = (b.len() - 1) as i64;
        let q_len = a.len() - b.len() + 1;
        let ghost av = a@;
        assert(res_spec(a_in@, b_in@) == (res as int * res_seq(av, b@)) % modulus());
        proof {
            lemma_trim_canon(b@);
            lemma_trim_canon(a@);
        }
        let r = if q_len < FAST_DIV_THRESHOLD {
            let r1 = rem_schoolbook_trimmed(a, &b);
            r1
        } else {
            proof {
                assert(divides_within_ntt(av, b@));
            }
            let (q2, r2) = divmod_fast(&a, &b);
            proof {
                lemma_divmod_is_spec(av, b@, q2@, r2@);
            }
            r2
        };
        proof {
            lemma_has_rem_facts(av, b@, r@);
            assert(r@ == rem_spec(av, b@));
        }
        if r.len() == 0 {
            if PROFILE {
                stats.zero_remainder = true;
            }
            proof {
                let z = res_seq(av, b@);
                assert(z == 0);
                assert(res as int * z == 0) by (nonlinear_arith)
                    requires
                        z == 0;
                lemma_small_mod(0nat, P as nat);
                assert((res as int * z) % modulus() == 0);
            }
            return (0, stats);
        }
        let dr = (r.len() - 1) as i64;
        if PROFILE {
            proof {
                assert(stats.total_divisor_len + db + 1 <= (stats.steps + 1) * b0) by (nonlinear_arith)
                    requires
                        stats.total_divisor_len <= stats.steps * b0,
                        db + 1 <= b0;
                assert((stats.steps + 1) * b0 <= b0 * b0) by (nonlinear_arith)
                    requires
                        stats.steps + 1 <= b0,
                        b0 >= 0;
            }
            stats.record_step(q_len, da, db, dr);
            proof {
                assert(stats.total_divisor_len <= stats.steps * b0);
            }
        }
        let ghost acc = res as int;
        proof {
            lemma_parity_product(da as int, db as int);
        }
        if da % 2 == 1 && db % 2 == 1 {
            res = fsub(0, res);
        }
        let lc = b[b.len() - 1];
        let w = fpow_small_exp(lc, da - dr);
        proof {
            assert(b@.last() != 0);
            lemma_pow_nonzero_mod(lc as int, (da - dr) as nat);
            lemma_mul_nonzero_mod(res as int, pow(lc as int, (da - dr) as nat));
            lemma_small_mod(res as nat, P as nat);
            lemma_mod_mod_p(pow(lc as int, (da - dr) as nat));
            vstd::arithmetic::div_mod::lemma_mul_mod_noop_right(res as int, pow(lc as int, (da - dr) as nat), modulus());
        }
        proof {
            assert(res as int == signed(da as int, db as int, acc)) by {
                lemma_small_mod(acc as nat, P as nat);
            }
            assert(lead(b@) == lc);
            lemma_res_step(acc, pow(lc as int, (da - dr) as nat), res_seq(b@, r@), da as int, db as int);
            assert((av.len() - r.len()) as nat == (da - dr) as nat);
        }
        res = fmul(res, w);
        a = b;
        b = r;
    }
    let e = (a.len() - 1) as u64;
    let w = fpow(b[0] as u64, e);
    proof {
        assert(coef(b@, 0) == b[0]);
        assert(b@.last() == b[0]);
        lemma_pow_nonzero_mod(b[0] as int, e as nat);
        lemma_mul_nonzero_mod(res as int, pow(b[0] as int, e as nat));
        lemma_small_mod(res as nat, P as nat);
        vstd::arithmetic::div_mod::lemma_mul_mod_noop_right(res as int, pow(b[0] as int, e as nat), modulus());
    }
    (fmul(res, w), stats)
}

/// Remainder sequences of polynomials of at most `2^23` coefficients fit the
/// transform.
proof fn lemma_short_chain_fits(a: Seq<u32>, b: Seq<u32>)
    requires
        canon(a),
        canon(b),
        a.len() <= 8388608,
        b.len() <= 8388608,
    ensures
        rem_chain_fits(a, b),
    decreases b.len(),
{
    if b.len() > 1 {
        lemma_trim_canon(a);
        lemma_trim_canon(b);
        crate::poly_gcd::lemma_rem_spec_facts(a, b);
        lemma_short_chain_fits(b, rem_spec(a, b));
    }
}

proof fn lemma_mod_mod_p(x: int)
    ensures
        (x % modulus()) % modulus() == x % modulus(),
{
    vstd::arithmetic::div_mod::lemma_mod_twice(x, modulus());
}

/// A product of two numbers that `p` does not divide is not divisible by `p`.
proof fn lemma_mul_nonzero_mod(a: int, b: int)
    requires
        a % modulus() != 0,
        b % modulus() != 0,
    ensures
        (a * b) % modulus() != 0,
{
    let p = modulus();
    crate::field::lemma_p_is_prime();
    if (a * b) % p == 0 {
        let ar = a % p;
        vstd::arithmetic::div_mod::lemma_mul_mod_noop_left(a, b, p);
        assert((ar * b) % p == 0);
        crate::field::lemma_euclid(p, ar, b);
    }
}

/// A power of a number `p` does not divide is not divisible by `p`.
pub(crate) proof fn lemma_pow_nonzero_mod(a: int, e: nat)
    requires
        0 < a < P,
    ensures
        pow(a, e) % modulus() != 0,
    decreases e,
{
    if e == 0 {
        vstd::arithmetic::power::lemma_pow0(a);
        lemma_small_mod(1nat, P as nat);
    } else {
        lemma_pow_nonzero_mod(a, (e - 1) as nat);
        vstd::arithmetic::power::lemma_pow_adds(a, 1, (e - 1) as nat);
        vstd::arithmetic::power::lemma_pow1(a);
        lemma_small_mod(a as nat, P as nat);
        lemma_mul_nonzero_mod(a, pow(a, (e - 1) as nat));
    }
}

/// The SplitMix64 state increment.
pub open spec fn splitmix_advance(s: u64) -> u64 {
    ((s as nat + 0x9E3779B97F4A7C15nat) % 0x1_0000_0000_0000_0000nat) as u64
}

/// The SplitMix64 output function applied to an advanced state.
pub open spec fn splitmix_mix(z: u64) -> u64 {
    let z1 = (((z ^ (z >> 30u64)) as nat * 0xBF58476D1CE4E5B9nat) % 0x1_0000_0000_0000_0000nat) as u64;
    let z2 = (((z1 ^ (z1 >> 27u64)) as nat * 0x94D049BB133111EBnat) % 0x1_0000_0000_0000_0000nat) as u64;
    z2 ^ (z2 >> 31u64)
}

/// Deterministic SplitMix64 for reproducible equal-degree splitting.
pub struct SplitMix(u64);

impl View for SplitMix {
    type V = u64;

    closed spec fn view(&self) -> u64 {
        self.0
    }
}

impl SplitMix {
    pub fn new(seed: u64) -> (s: Self)
        ensures
            s@ == seed,
    {
        SplitMix(seed)
    }

    pub fn next_u64(&mut self) -> (r: u64)
        ensures
            final(self)@ == splitmix_advance(old(self)@),
            r == splitmix_mix(splitmix_advance(old(self)@)),
    {
        self.0 = self.0.wrapping_add(0x9E3779B97F4A7C15);
        let mut z = self.0;
        z = (z ^ (z >> 30)).wrapping_mul(0xBF58476D1CE4E5B9);
        z = (z ^ (z >> 27)).wrapping_mul(0x94D049BB133111EB);
        z ^ (z >> 31)
    }

    pub fn next_field(&mut self) -> (r: u32)
        ensures
            final(self)@ == splitmix_advance(old(self)@),
            r as int == (splitmix_mix(splitmix_advance(old(self)@)) as int) % modulus(),
    {
        (self.next_u64() % PU64) as u32
    }
}

/// Evaluation does not see trailing zero coefficients.
pub(crate) proof fn lemma_peval_trim(f: Seq<u32>, x: int)
    ensures
        eqm(peval(trim_spec(f), x), peval(f, x)),
{
    lemma_trim(f);
    assert forall|i: int| #[trigger] eqm(coef(trim_spec(f), i), coef(f, i)) by {}
    lemma_peval_congruent(trim_spec(f), f, x);
}

/// A root of the normalised trimmed form of `f` is a root of `f`.
proof fn lemma_monic_root(f: Seq<u32>, x: int)
    requires
        reduced(f),
        trim_spec(f).len() > 0,
        peval(monic(trim_spec(f)), x) % modulus() == 0,
    ensures
        peval(f, x) % modulus() == 0,
{
    let t = trim_spec(f);
    lemma_trim(f);
    assert(canon(t));
    lemma_monic_divides(t);
    lemma_root_of_multiple(monic(t), t, x);
    lemma_peval_trim(f, x);
}

/// A root of `f` is a root of the normalised trimmed form of `f`.
proof fn lemma_root_monic(f: Seq<u32>, x: int)
    requires
        reduced(f),
        trim_spec(f).len() > 0,
        peval(f, x) % modulus() == 0,
    ensures
        peval(monic(trim_spec(f)), x) % modulus() == 0,
{
    let p = modulus();
    let t = trim_spec(f);
    lemma_trim(f);
    lemma_peval_trim(f, x);
    let c = inv_spec(t.last() as int);
    assert forall|i: int| #[trigger] eqm(coef(monic(t), i), coef(scalar_spec(t, c), i)) by {
        lemma_scalar_spec_coef(t, c, i);
        if 0 <= i < t.len() {
            lemma_mul_is_commutative(t[i] as int, c);
        }
    }
    lemma_peval_congruent(monic(t), scalar_spec(t, c), x);
    crate::poly_eval::lemma_peval_scalar(t, c, x);
    crate::poly_divides::lemma_eqm_mul_left(c, peval(t, x), 0);
}

/// A root of an exact product `g = q c` is a root of `c` or of `q`.
proof fn lemma_root_splits(g: Seq<u32>, c: Seq<u32>, q: Seq<u32>, y: int)
    requires
        forall|k: int| #[trigger] eqm(conv(q, c, k), coef(g, k)),
        peval(g, y) % modulus() == 0,
    ensures
        peval(c, y) % modulus() == 0 || peval(q, y) % modulus() == 0,
{
    let p = modulus();
    assert forall|k: int| #[trigger] eqm(coef(g, k), coef(mul_spec(q, c), k)) by {
        assert(eqm(conv(q, c, k), coef(g, k)));
        lemma_mul_spec_coef(q, c, k);
        lemma_mod_twice(conv(q, c, k), p);
    }
    lemma_peval_congruent(g, mul_spec(q, c), y);
    crate::poly_eval::lemma_peval_mul(q, c, y);
    if peval(c, y) % p != 0 && peval(q, y) % p != 0 {
        crate::field::lemma_field_no_zero_divisors(peval(q, y), peval(c, y));
    }
}

/// Number of random shifts tried before giving up on splitting a factor.
const SPLIT_ATTEMPTS: u32 = 4096;

/// Splits a product of distinct linear factors into its roots, by random
/// shifts `gcd(g, (x + a)^((p - 1) / 2) - 1)`.
fn split_roots(g_in: &[u32], rng: &mut SplitMix) -> (out: Vec<u32>)
    requires
        reduced(g_in@),
        trim_spec(g_in@).len() <= 8388609,
    ensures
        forall|i: int| 0 <= i < out.len() ==> #[trigger] out[i] < P,
        forall|i: int| 0 <= i < out.len() ==> (#[trigger] peval(g_in@, out[i] as int)) % modulus() == 0,
        trim_spec(g_in@).len() > 0 ==> forall|y: u32| y < P && peval(g_in@, y as int) % modulus() == 0 ==> #[trigger] out@.contains(y),
    decreases trim_spec(g_in@).len(),
{
    let g0 = trim(g_in);
    proof {
        lemma_trim(g_in@);
    }
    if g0.len() <= 1 {
        proof {
            if g0.len() == 1 {
                assert forall|y: u32| y < P && peval(g_in@, y as int) % modulus() == 0 implies #[trigger] Seq::<u32>::empty().contains(y) by {
                    lemma_peval_trim(g_in@, y as int);
                    reveal_with_fuel(peval, 2);
                    assert(g0@.drop_first().len() == 0);
                    assert(peval(g0@, y as int) == g0[0] + y * 0);
                    lemma_small_mod(g0[0] as nat, P as nat);
                }
            }
        }
        return Vec::new();
    }
    let d = g0.len() - 1;
    let inv = finv(g0[d]);
    let mut g: Vec<u32> = Vec::new();
    let mut i: usize = 0;
    while i < g0.len()
        invariant
            i <= g0.len(),
            g.len() == i,
            forall|j: int| 0 <= j < i ==> #[trigger] g[j] < P,
            forall|j: int| 0 <= j < i ==> #[trigger] g[j] as int == (g0[j] as int * inv as int) % modulus(),
        decreases g0.len() - i,
    {
        let v = fmul(g0[i], inv);
        g.push(v);
        i += 1;
    }
    proof {
        // the leading coefficient becomes one
        lemma_small_mod(g0[d as int] as nat, P as nat);
        assert(g[d as int] as int == (g0[d as int] as int * inv as int) % modulus());
        assert(g[d as int] != 0);
        assert(canon(g@));
        assert(g0@.last() == g0[d as int]);
        assert(g@ =~= monic(g0@));
    }
    if d == 1 {
        let r = fsub(0, g[0]);
        let mut v: Vec<u32> = Vec::new();
        v.push(r);
        proof {
            reveal_with_fuel(peval, 3);
            assert(g[1] == 1);
            assert(peval(g@, r as int) == g[0] + r * (g[1] + r * 0));
            assert((g[0] + r) % modulus() == 0);
            lemma_mul_basics(r as int);
            assert(peval(g@, r as int) == g[0] + r);
            assert(g0@ == trim_spec(g_in@));
            assert(peval(monic(trim_spec(g_in@)), r as int) % modulus() == 0);
            lemma_monic_root(g_in@, r as int);
            assert(v@[0] == r);
            assert forall|y: u32| y < P && peval(g_in@, y as int) % modulus() == 0 implies #[trigger] v@.contains(y) by {
                lemma_root_monic(g_in@, y as int);
                assert(peval(g@, y as int) == g[0] + y * (g[1] + y * 0));
                lemma_mul_basics(y as int);
                assert((g[0] + y) % modulus() == 0);
                assert((g[0] + r) % modulus() == 0);
                lemma_small_mod(y as nat, P as nat);
                lemma_small_mod(r as nat, P as nat);
                lemma_sub_mod_noop(g[0] + y, g[0] + r, modulus());
                lemma_mod_bound((y - r) as int, modulus());
                assert(((y as int) - (r as int)) % modulus() == 0);
                if y != r {
                    lemma_small_mod(if y > r { (y - r) as nat } else { (r - y) as nat }, P as nat);
                    if y < r {
                        lemma_mod_neg_small((r - y) as int);
                    }
                }
                assert(v@[0] == y);
            }
        }
        return v;
    }
    let mut tries: u32 = 0;
    while tries < SPLIT_ATTEMPTS
        invariant
            canon(g@),
            g.len() == d + 1,
            trim_spec(g_in@).len() == d + 1,
            g@ == monic(trim_spec(g_in@)),
            reduced(g_in@),
            2 <= d < 8388609,
        decreases SPLIT_ATTEMPTS - tries,
    {
        let a = rng.next_field();
        let mut base: Vec<u32> = Vec::new();
        base.push(a);
        base.push(1);
        proof {
            lemma_trim_canon(g@);
            lemma_trim_canon(base@);
        }
        let h = powmod(&base, (PU64 - 1) / 2, &g);
        let mut one: Vec<u32> = Vec::new();
        one.push(1);
        let hm1 = self::sub(&h, &one);
        proof {
            lemma_ops_canon(h@, one@, 0);
        }
        let c = gcd(&g, &hm1);
        if c.len() > 1 && c.len() <= d {
            proof {
                lemma_trim_canon(c@);
            }
            let (other, rest) = divmod(&g, &c);
            proof {
                lemma_quot_len(g@, c@, other@, rest@);
                lemma_trim_canon(other@);
                lemma_trim_canon(c@);
            }
            let mut found = split_roots(&c, rng);
            let more = split_roots(&other, rng);
            proof {
                // both factors divide g, so their roots are roots of g_in
                lemma_divides_rem(c@, g@);
                lemma_divmod_is_spec(g@, c@, other@, rest@);
                lemma_exact_quotient_divides(g@, c@, other@);
                assert forall|j: int| 0 <= j < found.len() implies (#[trigger] peval(g_in@, found[j] as int)) % modulus() == 0 by {
                    lemma_root_of_multiple(c@, g@, found[j] as int);
                    lemma_monic_root(g_in@, found[j] as int);
                }
                assert forall|j: int| 0 <= j < more.len() implies (#[trigger] peval(g_in@, more[j] as int)) % modulus() == 0 by {
                    lemma_root_of_multiple(other@, g@, more[j] as int);
                    lemma_monic_root(g_in@, more[j] as int);
                }
                // the quotient is not zero, since g is not
                assert(rest@ == Seq::<u32>::empty());
                assert forall|k: int| #[trigger] eqm(conv(other@, c@, k), coef(g@, k)) by {
                    assert(((conv(other@, c@, k) + coef(rest@, k)) % modulus()) == coef(g@, k) % modulus());
                }
                if other.len() == 0 {
                    lemma_trim(g_in@);
                    lemma_monic_canon(trim_spec(g_in@));
                    assert(g@.last() == 1);
                    assert(eqm(conv(other@, c@, d as int), coef(g@, d as int)));
                    assert(conv(other@, c@, d as int) == 0);
                    assert(coef(g@, d as int) == 1);
                    assert(false);
                }
                lemma_trim_canon(other@);
            }
            let ghost found0 = found@;
            let mut k: usize = 0;
            while k < more.len()
                invariant
                    k <= more.len(),
                    found.len() == found0.len() + k,
                    forall|j: int| 0 <= j < found0.len() ==> #[trigger] found@[j] == found0[j],
                    forall|j: int| 0 <= j < k ==> #[trigger] found@[found0.len() + j] == more@[j],
                    forall|j: int| 0 <= j < found.len() ==> #[trigger] found[j] < P,
                    forall|j: int| 0 <= j < more.len() ==> #[trigger] more[j] < P,
                    forall|j: int| 0 <= j < found.len() ==> (#[trigger] peval(g_in@, found[j] as int)) % modulus() == 0,
                    forall|j: int| 0 <= j < more.len() ==> (#[trigger] peval(g_in@, more[j] as int)) % modulus() == 0,
                decreases more.len() - k,
            {
                found.push(more[k]);
                proof {
                    assert(found[found.len() - 1] == more[k as int]);
                }
                k += 1;
            }
            proof {
                assert forall|y: u32| y < P && peval(g_in@, y as int) % modulus() == 0 implies #[trigger] found@.contains(y) by {
                    lemma_root_monic(g_in@, y as int);
                    lemma_root_splits(g@, c@, other@, y as int);
                    if peval(c@, y as int) % modulus() == 0 {
                        assert(found0.contains(y));
                        let j = choose|j: int| 0 <= j < found0.len() && found0[j] == y;
                        assert(found@[j] == y);
                    } else {
                        assert(more@.contains(y));
                        let j = choose|j: int| 0 <= j < more.len() && more@[j] == y;
                        assert(found@[found0.len() + j] == y);
                    }
                }
            }
            return found;
        }
        tries += 1;
    }
    // Every random shift failed to split: scan the field.
    let mut out: Vec<u32> = Vec::new();
    let mut a: u32 = 0;
    while a < P
        invariant
            a <= P,
            reduced(g_in@),
            forall|i: int| 0 <= i < out.len() ==> #[trigger] out[i] < P,
            forall|i: int| 0 <= i < out.len() ==> (#[trigger] peval(g_in@, out[i] as int)) % modulus() == 0,
            forall|y: u32| y < a && peval(g_in@, y as int) % modulus() == 0 ==> #[trigger] out@.contains(y),
        decreases P - a,
    {
        let v = eval(g_in, a);
        let ghost before = out@;
        if v == 0 {
            out.push(a);
            proof {
                assert(out@[out.len() - 1] == a);
                assert forall|y: u32| y < a && peval(g_in@, y as int) % modulus() == 0 implies #[trigger] out@.contains(y) by {
                    assert(before.contains(y));
                    let j = choose|j: int| 0 <= j < before.len() && before[j] == y;
                    assert(out@[j] == y);
                }
            }
        }
        a += 1;
    }
    out
}

proof fn lemma_eqm_sub_zero(d: int, a: int, y: int)
    requires
        eqm(d, a - y),
        eqm(a, y),
    ensures
        d % modulus() == 0,
{
    lemma_sub_mod_noop(a, y, modulus());
    lemma_sub_mod_noop(y, y, modulus());
}

/// `(-y) mod p` is not zero for `0 < y < p`.
proof fn lemma_mod_neg_small(y: int)
    requires
        0 < y < modulus(),
    ensures
        (-y) % modulus() != 0,
{
    lemma_fundamental_div_mod(-y, modulus());
    lemma_mod_bound(-y, modulus());
    if (-y) % modulus() == 0 {
        let q = (-y) / modulus();
        assert(-y == modulus() * q);
        assert(false) by (nonlinear_arith)
            requires
                -y == modulus() * q,
                0 < y < modulus();
    }
}

/// The values of `v` strictly increase.
pub open spec fn strictly_increasing(v: Seq<u32>) -> bool {
    forall|i: int, j: int| 0 <= i < j < v.len() ==> v[i] < v[j]
}

/// Inserts `x` into the strictly increasing `v`, unless it is already there.
fn insert_sorted(v: &mut Vec<u32>, x: u32)
    requires
        strictly_increasing(old(v)@),
    ensures
        strictly_increasing(final(v)@),
        forall|y: u32| #[trigger] final(v)@.contains(y) <==> (old(v)@.contains(y) || y == x),
{
    let mut i: usize = 0;
    while i < v.len() && v[i] < x
        invariant
            v@ == old(v)@,
            strictly_increasing(v@),
            i <= v.len(),
            forall|j: int| 0 <= j < i ==> v[j] < x,
        decreases v.len() - i,
    {
        i += 1;
    }
    if i < v.len() && v[i] == x {
        assert(v@.contains(x) && v@[i as int] == x);
        return;
    }
    let ghost old_v = v@;
    v.insert(i, x);
    proof {
        assert(v@ == old_v.insert(i as int, x));
        assert(old_v == old(v)@);
        assert forall|y: u32| #[trigger] v@.contains(y) <==> (old(v)@.contains(y) || y == x) by {
            if v@.contains(y) {
                let j = choose|j: int| 0 <= j < v@.len() && v@[j] == y;
                if j < i {
                    assert(old_v[j] == y);
                } else if j > i {
                    assert(old_v[j - 1] == y);
                }
            }
            if old_v.contains(y) {
                let j = choose|j: int| 0 <= j < old_v.len() && old_v[j] == y;
                if j < i {
                    assert(v@[j] == y);
                } else {
                    assert(v@[j + 1] == y);
                }
            }
            if y == x {
                assert(v@[i as int] == x);
            }
        }
    }
}

/// Evaluation takes powers to powers.
proof fn lemma_peval_ppow(b: Seq<u32>, e: nat, y: int)
    ensures
        eqm(peval(ppow(b, e), y), pow(peval(b, y), e)),
    decreases e,
{
    reveal(pow);
    if e == 0 {
        reveal_with_fuel(peval, 2);
        assert(seq![1u32].drop_first().len() == 0);
        assert(peval(seq![1u32], y) == 1 + y * 0);
    } else {
        let e1 = (e - 1) as nat;
        lemma_peval_ppow(b, e1, y);
        crate::poly_eval::lemma_peval_mul(b, ppow(b, e1), y);
        crate::poly_divides::lemma_eqm_mul_left(peval(b, y), peval(ppow(b, e1), y), pow(peval(b, y), e1));
    }
}

/// Congruent modulo `m` values agree at a root of `m`.
proof fn lemma_congruent_at_root(r: Seq<u32>, z: Seq<u32>, m: Seq<u32>, y: int)
    requires
        congruent(r, z, m),
        peval(m, y) % modulus() == 0,
    ensures
        eqm(peval(r, y), peval(z, y)),
{
    let p = modulus();
    let q = choose|q: Seq<u32>| #[trigger] crate::poly_ring::congruent_by(r, z, m, q);
    let s = add_spec(r, mul_spec(q, m));
    assert forall|k: int| #[trigger] eqm(coef(s, k), coef(z, k)) by {
        assert(eqm(coef(r, k) + conv(q, m, k), coef(z, k)));
        lemma_add_spec_coef(r, mul_spec(q, m), k);
        lemma_mul_spec_coef(q, m, k);
        lemma_add_mod_noop(coef(r, k), conv(q, m, k), p);
        lemma_add_mod_noop(coef(r, k), conv(q, m, k) % p, p);
        lemma_mod_twice(conv(q, m, k), p);
        lemma_mod_twice(coef(r, k) + conv(q, m, k) % p, p);
    }
    lemma_peval_congruent(s, z, y);
    crate::poly_eval::lemma_peval_add(r, mul_spec(q, m), y);
    crate::poly_eval::lemma_peval_mul(q, m, y);
    crate::poly_divides::lemma_eqm_mul_left(peval(q, y), peval(m, y), 0);
    crate::poly_divides::lemma_eqm_add(peval(r, y), peval(r, y), peval(mul_spec(q, m), y), 0);
}

/// Fermat's little theorem in the form `y^p = y`.
proof fn lemma_pow_p(y: int)
    requires
        0 <= y < modulus(),
    ensures
        eqm(pow(y, modulus() as nat), y),
{
    let p = modulus();
    reveal(pow);
    assert(pow(y, p as nat) == y * pow(y, (p - 1) as nat));
    if y == 0 {
        lemma_mul_basics(pow(y, (p - 1) as nat));
    } else {
        lemma_small_mod(y as nat, p as nat);
        crate::field::lemma_fermat(y);
        crate::poly_divides::lemma_eqm_mul_left(y, pow(y, (p - 1) as nat), 1);
    }
}

/// A nonzero constant has no root.
proof fn lemma_constant_no_root(f: Seq<u32>, y: int)
    requires
        canon(f),
        f.len() == 1,
    ensures
        peval(f, y) % modulus() != 0,
{
    reveal_with_fuel(peval, 2);
    assert(f.drop_first().len() == 0);
    assert(peval(f, y) == f[0] + y * 0);
    lemma_small_mod(f[0] as nat, P as nat);
}

/// All distinct roots of f in F_p (sorted).
pub fn roots(f_in: &[u32]) -> (out: Vec<u32>)
    requires
        reduced(f_in@),
        trim_spec(f_in@).len() <= 8388609,
    ensures
        strictly_increasing(out@),
        forall|i: int| 0 <= i < out.len() ==> #[trigger] out[i] < P,
        forall|i: int| 0 <= i < out.len() ==> #[trigger] (peval(f_in@, out[i] as int) % modulus()) == 0,
        degree(f_in@) <= 0 ==> out.len() == 0,
        degree(f_in@) >= 0 ==> forall|y: u32| y < P && peval(f_in@, y as int) % modulus() == 0 ==> #[trigger] out@.contains(y),
        degree(f_in@) >= 0 ==> out.len() == root_set(f_in@).len(),
        out@ == sorted_roots(f_in@),
{
    let out = roots_found(f_in);
    proof {
        if degree(f_in@) >= 0 {
            lemma_root_count(f_in@, out@);
        }
        assert(is_sorted_roots(f_in@, out@));
        let s = sorted_roots(f_in@);
        assert(is_sorted_roots(f_in@, s));
        if degree(f_in@) >= 0 {
            assert forall|y: u32| #![trigger s.contains(y)] #![trigger out@.contains(y)] s.contains(y) == out@.contains(y) by {
                if s.contains(y) {
                    let i = choose|i: int| 0 <= i < s.len() && s[i] == y;
                    assert(s[i] < P && peval(f_in@, s[i] as int) % modulus() == 0);
                }
                if out@.contains(y) {
                    let i = choose|i: int| 0 <= i < out.len() && out@[i] == y;
                    assert(out[i] < P && peval(f_in@, out[i] as int) % modulus() == 0);
                }
            }
            lemma_sorted_unique(s, out@);
        } else {
            assert(s =~= out@);
        }
    }
    out
}

/// `s` lists the roots in `[0, p)` of `f` in increasing order; none when `f`
/// is zero or constant.
pub open spec fn is_sorted_roots(f: Seq<u32>, s: Seq<u32>) -> bool {
    &&& strictly_increasing(s)
    &&& forall|i: int| 0 <= i < s.len() ==> #[trigger] s[i] < P && peval(f, s[i] as int) % modulus() == 0
    &&& degree(f) <= 0 ==> s.len() == 0
    &&& degree(f) >= 0 ==> forall|y: u32| y < P && peval(f, y as int) % modulus() == 0 ==> #[trigger] s.contains(y)
}

/// The roots in `[0, p)` of `f` in increasing order; none when `f` is zero
/// or constant.
pub closed spec fn sorted_roots(f: Seq<u32>) -> Seq<u32> {
    choose|s: Seq<u32>| is_sorted_roots(f, s)
}

/// Two strictly increasing sequences with the same elements are equal.
proof fn lemma_sorted_unique(s1: Seq<u32>, s2: Seq<u32>)
    requires
        strictly_increasing(s1),
        strictly_increasing(s2),
        forall|y: u32| #![trigger s1.contains(y)] #![trigger s2.contains(y)] s1.contains(y) == s2.contains(y),
    ensures
        s1 == s2,
    decreases s1.len() + s2.len(),
{
    if s1.len() == 0 {
        if s2.len() > 0 {
            assert(s2.contains(s2[0]));
        }
        assert(s1 =~= s2);
    } else if s2.len() == 0 {
        assert(s1.contains(s1[0]));
        assert(s1 =~= s2);
    } else {
        assert(s1.contains(s1[0]) && s2.contains(s2[0]));
        let i = choose|i: int| 0 <= i < s1.len() && s1[i] == s2[0];
        let j = choose|j: int| 0 <= j < s2.len() && s2[j] == s1[0];
        if i > 0 {
            assert(s1[0] < s1[i]);
        }
        if j > 0 {
            assert(s2[0] < s2[j]);
        }
        assert(s1[0] == s2[0]);
        let t1 = s1.drop_first();
        let t2 = s2.drop_first();
        assert forall|y: u32| #![trigger t1.contains(y)] #![trigger t2.contains(y)] t1.contains(y) == t2.contains(y) by {
            if t1.contains(y) {
                let a = choose|a: int| 0 <= a < t1.len() && t1[a] == y;
                assert(s1[0] < s1[a + 1]);
                assert(s1.contains(y));
                let b = choose|b: int| 0 <= b < s2.len() && s2[b] == y;
                assert(b != 0);
                assert(t2[b - 1] == y);
            }
            if t2.contains(y) {
                let a = choose|a: int| 0 <= a < t2.len() && t2[a] == y;
                assert(s2[0] < s2[a + 1]);
                assert(s2.contains(y));
                let b = choose|b: int| 0 <= b < s1.len() && s1[b] == y;
                assert(b != 0);
                assert(t1[b - 1] == y);
            }
        }
        lemma_sorted_unique(t1, t2);
        assert forall|k: int| 0 <= k < s1.len() implies s1[k] == s2[k] by {
            if k > 0 {
                assert(s1[k] == t1[k - 1]);
                assert(s2[k] == t2[k - 1]);
            }
        }
        assert(s1 =~= s2);
    }
}

/// The roots in `[0, p)` of `f`.
pub open spec fn root_set(f: Seq<u32>) -> Set<u32> {
    Set::new(|y: u32| y < P && peval(f, y as int) % modulus() == 0)
}

/// A strictly increasing list of exactly the roots of `f` is as long as the
/// set of roots.
proof fn lemma_root_count(f: Seq<u32>, out: Seq<u32>)
    requires
        strictly_increasing(out),
        forall|i: int| 0 <= i < out.len() ==> #[trigger] out[i] < P,
        forall|i: int| 0 <= i < out.len() ==> #[trigger] (peval(f, out[i] as int) % modulus()) == 0,
        forall|y: u32| y < P && peval(f, y as int) % modulus() == 0 ==> #[trigger] out.contains(y),
    ensures
        out.len() == root_set(f).len(),
{
    assert(out.no_duplicates()) by {
        assert forall|i: int, j: int| 0 <= i < out.len() && 0 <= j < out.len() && i != j implies out[i] != out[j] by {
            if i < j {
                assert(out[i] < out[j]);
            } else {
                assert(out[j] < out[i]);
            }
        }
    }
    out.unique_seq_to_set();
    assert(out.to_set() =~= root_set(f)) by {
        assert forall|y: u32| #[trigger] out.to_set().contains(y) implies root_set(f).contains(y) by {
            let i = choose|i: int| 0 <= i < out.len() && out[i] == y;
        }
        assert forall|y: u32| #[trigger] root_set(f).contains(y) implies out.to_set().contains(y) by {
            assert(out.contains(y));
        }
    }
}

fn roots_found(f_in: &[u32]) -> (out: Vec<u32>)
    requires
        reduced(f_in@),
        trim_spec(f_in@).len() <= 8388609,
    ensures
        strictly_increasing(out@),
        forall|i: int| 0 <= i < out.len() ==> #[trigger] out[i] < P,
        forall|i: int| 0 <= i < out.len() ==> #[trigger] (peval(f_in@, out[i] as int) % modulus()) == 0,
        degree(f_in@) <= 0 ==> out.len() == 0,
        degree(f_in@) >= 0 ==> forall|y: u32| y < P && peval(f_in@, y as int) % modulus() == 0 ==> #[trigger] out@.contains(y),
{
    let f = trim(f_in);
    proof {
        lemma_trim(f_in@);
        lemma_trim_canon(f@);
    }
    if f.len() <= 1 {
        proof {
            if f.len() == 1 {
                assert forall|y: u32| y < P && peval(f_in@, y as int) % modulus() == 0 implies #[trigger] Seq::<u32>::empty().contains(y) by {
                    lemma_peval_trim(f_in@, y as int);
                    lemma_constant_no_root(f@, y as int);
                }
            }
        }
        return Vec::new();
    }
    let mut x: Vec<u32> = Vec::new();
    x.push(0);
    x.push(1);
    proof {
        lemma_trim_canon(x@);
    }
    let xp = powmod(&x, PU64, &f);
    let xpx = self::sub(&xp, &x);
    proof {
        lemma_ops_canon(xp@, x@, 0);
    }
    let g = gcd(&f, &xpx);
    proof {
        lemma_trim(xpx@);
        lemma_euclid_len(trim_spec(f@), trim_spec(xpx@));
        assert(g@.len() == euclid(trim_spec(f@), trim_spec(xpx@)).len());
        assert(xpx.len() <= max_len(xp@, x@)) by {
            lemma_trim(from_fn(max_len(xp@, x@), sub_coefs(xp@, x@)));
        }
    }
    // every root of f in F_p is a root of g
    proof {
        assert forall|y: u32| #![trigger peval(f_in@, y as int)] y < P && peval(f_in@, y as int) % modulus() == 0 implies peval(g@, y as int) % modulus() == 0 && g.len() >= 2 by {
            let yi = y as int;
            lemma_peval_trim(f_in@, yi);
            assert(peval(f@, yi) % modulus() == 0);
            lemma_rem_congruent(ppow(x@, PU64 as nat), f@, xp@);
            lemma_congruent_at_root(xp@, ppow(x@, PU64 as nat), f@, yi);
            lemma_peval_ppow(x@, PU64 as nat, yi);
            reveal_with_fuel(peval, 3);
            assert(x@.drop_first().drop_first().len() == 0);
            assert(peval(x@, yi) == 0 + yi * (1 + yi * 0));
            assert(yi * (1 + yi * 0) == yi) by (nonlinear_arith);
            assert(peval(x@, yi) == yi);
            assert(PU64 as int == modulus());
            lemma_pow_p(yi);
            assert(eqm(peval(ppow(x@, PU64 as nat), yi), pow(yi, modulus() as nat)));
            crate::poly_eval::lemma_peval_sub(xp@, x@, yi);
            assert(eqm(peval(xp@, yi), yi));
            lemma_eqm_sub_zero(peval(xpx@, yi), peval(xp@, yi), yi);
            crate::poly_divides::lemma_common_root(f@, xpx@, g@, yi);
            if g.len() == 0 {
                // f would be zero
                let h = choose|h: Seq<u32>| #[trigger] crate::poly_ring::congruent_by(Seq::<u32>::empty(), f@, g@, h);
                let top = f.len() - 1;
                assert(eqm(coef(Seq::<u32>::empty(), top as int) + conv(h, g@, top as int), coef(f@, top as int)));
                lemma_conv_comm(h, g@, top as int);
                assert(conv(g@, h, top as int) == 0);
                lemma_small_mod(f[top as int] as nat, P as nat);
                assert(false);
            }
            if g.len() == 1 {
                lemma_constant_no_root(g@, yi);
            }
        }
    }
    let mut out: Vec<u32> = Vec::new();
    if g.len() <= 1 {
        proof {
            assert forall|y: u32| y < P && peval(f_in@, y as int) % modulus() == 0 implies #[trigger] out@.contains(y) by {
                assert(peval(f_in@, y as int) % modulus() == 0);
            }
        }
        return out;
    }
    let mut rng = SplitMix::new(2026);
    let cands = split_roots(&g, &mut rng);
    proof {
        // g divides f, and f is f_in without its trailing zeros
        assert forall|i: int| 0 <= i < cands.len() implies (#[trigger] peval(f_in@, cands[i] as int)) % modulus() == 0 by {
            lemma_root_of_multiple(g@, f@, cands[i] as int);
            lemma_peval_trim(f_in@, cands[i] as int);
        }
    }
    let mut k: usize = 0;
    while k < cands.len()
        invariant
            k <= cands.len(),
            strictly_increasing(out@),
            forall|i: int| 0 <= i < cands.len() ==> #[trigger] cands[i] < P,
            forall|i: int| 0 <= i < cands.len() ==> (#[trigger] peval(f_in@, cands[i] as int)) % modulus() == 0,
            forall|y: u32| #[trigger] out@.contains(y) ==> y < P && peval(f_in@, y as int) % modulus() == 0,
            forall|j: int| 0 <= j < k ==> out@.contains(#[trigger] cands@[j]),
        decreases cands.len() - k,
    {
        let c = cands[k];
        insert_sorted(&mut out, c);
        k += 1;
    }
    proof {
        assert forall|y: u32| y < P && peval(f_in@, y as int) % modulus() == 0 implies #[trigger] out@.contains(y) by {
            assert(peval(f_in@, y as int) % modulus() == 0);
            assert(peval(g@, y as int) % modulus() == 0);
            lemma_trim_canon(g@);
            assert(cands@.contains(y));
            let j = choose|j: int| 0 <= j < cands.len() && cands@[j] == y;
            assert(out@.contains(cands@[j]));
        }
    }
    proof {
        assert forall|i: int| 0 <= i < out.len() implies #[trigger] out[i] < P && (peval(f_in@, out[i] as int) % modulus()) == 0 by {
            let y = out[i];
            assert(out@[i] == y);
            assert(out@.contains(y));
        }
    }
    out
}

/// Divided differences after `j` passes of Newton's scheme, at index `i`:
/// `f[x_{i-j}, ..., x_i]` for `i >= j`, and the earlier pass below that.
pub open spec fn divided_diff(xs: Seq<u32>, ys: Seq<u32>, j: nat, i: int) -> int
    decreases j,
{
    if j == 0 {
        (ys[i] as int) % modulus()
    } else if i < j {
        divided_diff(xs, ys, (j - 1) as nat, i)
    } else {
        (((divided_diff(xs, ys, (j - 1) as nat, i) - divided_diff(xs, ys, (j - 1) as nat, i - 1)) % modulus())
            * inv_spec(((xs[i] as int) - (xs[i - j] as int)) % modulus())) % modulus()
    }
}

/// The Newton form `c_i + (x - x_i)(c_{i+1} + (x - x_{i+1})(... c_{n-1}))`,
/// built from the top.
pub open spec fn newton_form(xs: Seq<u32>, c: spec_fn(int) -> int, i: int, n: int) -> Seq<u32>
    decreases n - i,
{
    if i >= n - 1 {
        seq![c(n - 1) as u32]
    } else {
        add_spec(
            mul_spec(newton_form(xs, c, i + 1, n), seq![((0 - xs[i]) % modulus()) as u32, 1u32]),
            seq![c(i) as u32],
        )
    }
}

/// The coefficients of the Newton form: the last pass of divided differences.
pub open spec fn newton_coefs(xs: Seq<u32>, ys: Seq<u32>) -> spec_fn(int) -> int {
    |i: int| divided_diff(xs, ys, (xs.len() - 1) as nat, i)
}

/// Consecutive values of `xs` differ by `step` mod p.
pub open spec fn is_arithmetic(xs: Seq<u32>, step: int) -> bool {
    forall|k: int| 0 <= k < xs.len() - 1 ==> #[trigger] (((xs[k + 1] as int) - (xs[k] as int)) % modulus()) == step
}

/// In an arithmetic progression, values `j` apart differ by `j * step`.
proof fn lemma_arithmetic_gap(xs: Seq<u32>, step: int, i: int, j: int)
    requires
        is_arithmetic(xs, step),
        0 <= step < modulus(),
        0 <= j <= i < xs.len(),
    ensures
        (((xs[i] as int) - (xs[i - j] as int)) % modulus()) == (j * step) % modulus(),
    decreases j,
{
    let p = modulus();
    if j == 0 {
        lemma_small_mod(0, p as nat);
    } else {
        lemma_arithmetic_gap(xs, step, i, j - 1);
        let k = i - j;
        assert((((xs[k + 1] as int) - (xs[k] as int)) % p) == step);
        assert(k + 1 == i - (j - 1));
        lemma_add_mod_noop((xs[i] as int) - (xs[k + 1] as int), (xs[k + 1] as int) - (xs[k] as int), p);
        lemma_add_mod_noop((j - 1) * step, step, p);
        lemma_small_mod(step as nat, p as nat);
        assert((j - 1) * step + step == j * step) by (nonlinear_arith);
    }
}

/// Newton interpolation through `(xs, ys)`: with distinct `xs`, the result
/// has degree below `xs.len()` and takes the value `ys[k]` at `xs[k]`.
pub fn interpolate(xs: &[u32], ys: &[u32]) -> (r: Poly)
    requires
        xs.len() == ys.len(),
        1 <= xs.len() <= 16777215,
        reduced(xs@),
        reduced(ys@),
    ensures
        r@ == trim_spec(newton_form(xs@, newton_coefs(xs@, ys@), 0, xs.len() as int)),
        canon(r@),
        r.len() <= xs.len(),
        crate::newton_interp::distinct_nodes(xs@) ==> forall|k: int|
            0 <= k < xs.len() ==> #[trigger] peval(r@, xs[k] as int) % modulus() == ys[k],
        crate::newton_interp::distinct_nodes(xs@) ==> forall|f: Seq<u32>|
            #![trigger trim_spec(f)]
            reduced(f) && trim_spec(f).len() <= xs.len() && (forall|k: int|
                0 <= k < xs.len() ==> #[trigger] ys[k] as int == peval(f, xs[k] as int) % modulus()) ==> r@ == trim_spec(f),
{
    let n = xs.len();
    let mut coef: Vec<u32> = Vec::new();
    let mut k: usize = 0;
    while k < n
        invariant
            k <= n == ys.len(),
            coef.len() == k,
            forall|i: int| 0 <= i < k ==> #[trigger] coef[i] == ys[i],
        decreases n - k,
    {
        coef.push(ys[k]);
        k += 1;
    }
    let step_opt = arithmetic_step(xs);
    let mut inv_steps: Vec<u32> = Vec::new();
    let fast = step_opt.is_some();
    if let Some(step) = step_opt {
        inv_steps.push(0);
        let mut j: usize = 1;
        while j < n
            invariant
                1 <= j <= n <= 16777215,
                inv_steps.len() == j,
                forall|t: int| 1 <= t < j ==> #[trigger] inv_steps[t] as int == inv_spec((step as int * t) % modulus()),
            decreases n - j,
        {
            let v = finv(fmul(step, j as u32));
            proof {
                lemma_pow_mod_noop((step as int * j as int) % modulus(), (modulus() - 2) as nat, modulus());
                lemma_mod_twice(step as int * j as int, modulus());
            }
            inv_steps.push(v);
            j += 1;
        }
    }
    proof {
        if fast {
            lemma_small_mod(ys[0] as nat, P as nat);
        }
        assert forall|i: int| 0 <= i < n implies #[trigger] coef[i] as int == divided_diff(xs@, ys@, 0, i) by {
            lemma_small_mod(ys[i] as nat, P as nat);
        }
    }
    let mut j: usize = 1;
    while j < n
        invariant
            1 <= j <= n <= 16777215,
            n == xs.len() == ys.len(),
            coef.len() == n,
            reduced(xs@),
            fast == step_opt.is_some(),
            fast ==> is_arithmetic(xs@, step_opt.unwrap() as int) && step_opt.unwrap() < P && inv_steps.len() == n,
            fast ==> forall|t: int| 1 <= t < n ==> #[trigger] inv_steps[t] as int == inv_spec((step_opt.unwrap() as int * t) % modulus()),
            forall|i: int| 0 <= i < n ==> #[trigger] coef[i] as int == divided_diff(xs@, ys@, (j - 1) as nat, i),
            forall|i: int| 0 <= i < n ==> #[trigger] coef[i] < P,
        decreases n - j,
    {
        let mut i: usize = n;
        while i > j
            invariant
                1 <= j < n <= 16777215,
                j <= i <= n,
                n == xs.len() == ys.len(),
                coef.len() == n,
                reduced(xs@),
                fast == step_opt.is_some(),
                fast ==> is_arithmetic(xs@, step_opt.unwrap() as int) && step_opt.unwrap() < P && inv_steps.len() == n,
                fast ==> forall|t: int| 1 <= t < n ==> #[trigger] inv_steps[t] as int == inv_spec((step_opt.unwrap() as int * t) % modulus()),
                forall|k: int| 0 <= k < i ==> #[trigger] coef[k] as int == divided_diff(xs@, ys@, (j - 1) as nat, k),
                forall|k: int| i <= k < n ==> #[trigger] coef[k] as int == divided_diff(xs@, ys@, j as nat, k),
                forall|k: int| 0 <= k < n ==> #[trigger] coef[k] < P,
            decreases i,
        {
            i -= 1;
            let d = fsub(xs[i], xs[i - j]);
            let inv = if fast {
                proof {
                    lemma_arithmetic_gap(xs@, step_opt.unwrap() as int, i as int, j as int);
                    lemma_pow_mod_noop(((xs[i as int] as int) - (xs[i - j] as int)), (modulus() - 2) as nat, modulus());
                    lemma_pow_mod_noop(step_opt.unwrap() as int * j, (modulus() - 2) as nat, modulus());
                    lemma_mod_twice(((xs[i as int] as int) - (xs[i - j] as int)), modulus());
                    lemma_mod_twice(step_opt.unwrap() as int * j, modulus());
                }
                inv_steps[j]
            } else {
                finv(d)
            };
            let diff = fsub(coef[i], coef[i - 1]);
            coef.set(i, fmul(diff, inv));
        }
        j += 1;
    }
    // Horner assembly of the Newton form.
    let ghost c = newton_coefs(xs@, ys@);
    let mut poly: Vec<u32> = Vec::new();
    poly.push(coef[n - 1]);
    let mut i: usize = n - 1;
    proof {
        assert(poly@ == newton_form(xs@, c, (n - 1) as int, n as int));
    }
    while i > 0
        invariant
            0 <= i < n <= 16777215,
            n == xs.len(),
            coef.len() == n,
            reduced(xs@),
            forall|k: int| 0 <= k < n ==> #[trigger] coef[k] < P,
            forall|k: int| 0 <= k < n ==> #[trigger] coef[k] as int == c(k),
            c == newton_coefs(xs@, ys@),
            poly@ == newton_form(xs@, c, i as int, n as int),
            reduced(poly@),
            poly.len() <= n - i,
        decreases i,
    {
        let mut lin: Vec<u32> = Vec::new();
        lin.push(fsub(0, xs[i - 1]));
        lin.push(1);
        proof {
            lemma_trim(poly@);
            lemma_trim(lin@);
        }
        let m = self::mul(&poly, &lin);
        let mut cc: Vec<u32> = Vec::new();
        cc.push(coef[i - 1]);
        proof {
            lemma_ops_canon(poly@, lin@, 0);
            assert(reduced(cc@));
        }
        let next = self::add(&m, &cc);
        proof {
            lemma_ops_canon(m@, cc@, 0);
            lemma_mul_spec_len(poly@, lin@);
            lemma_trim(from_fn(max_len(m@, cc@), add_coefs(m@, cc@)));
            assert(newton_form(xs@, c, (i - 1) as int, n as int) == add_spec(
                mul_spec(newton_form(xs@, c, i as int, n as int), seq![((0 - xs[i - 1]) % modulus()) as u32, 1u32]),
                seq![c(i - 1) as u32],
            ));
            assert(lin@ =~= seq![((0 - xs[i - 1]) % modulus()) as u32, 1u32]);
            assert(cc@ =~= seq![c(i - 1) as u32]);
        }
        poly = next;
        i -= 1;
    }
    proof {
        lemma_trim(poly@);
    }
    let r = trim(&poly);
    proof {
        if crate::newton_interp::distinct_nodes(xs@) {
            crate::newton_interp::law_newton_interpolates(xs@, ys@);
            assert forall|t: int| #[trigger] crate::poly_ring::eqm(crate::poly_spec::coef(r@, t), crate::poly_spec::coef(poly@, t)) by {}
            assert forall|k: int| 0 <= k < xs.len() implies #[trigger] peval(r@, xs[k] as int) % modulus() == ys[k] by {
                lemma_peval_congruent(r@, poly@, xs[k] as int);
            }
            assert forall|f: Seq<u32>|
                #![trigger trim_spec(f)]
                reduced(f) && trim_spec(f).len() <= xs.len() && (forall|k: int|
                    0 <= k < xs.len() ==> #[trigger] ys[k] as int == peval(f, xs[k] as int) % modulus()) implies r@ == trim_spec(f) by {
                lemma_interpolant_unique(xs@, ys@, r@, f);
            }
        }
    }
    r
}

/// A canonical polynomial with at most `n` coefficients that takes the
/// values `ys` at `n` distinct nodes is the trimmed `f` whenever `f` has at
/// most `n` coefficients and takes those values too.
proof fn lemma_interpolant_unique(xs: Seq<u32>, ys: Seq<u32>, r: Seq<u32>, f: Seq<u32>)
    requires
        reduced(xs),
        crate::newton_interp::distinct_nodes(xs),
        ys.len() == xs.len(),
        canon(r),
        r.len() <= xs.len(),
        forall|k: int| 0 <= k < xs.len() ==> #[trigger] peval(r, xs[k] as int) % modulus() == ys[k],
        reduced(f),
        trim_spec(f).len() <= xs.len(),
        forall|k: int| 0 <= k < xs.len() ==> #[trigger] ys[k] as int == peval(f, xs[k] as int) % modulus(),
    ensures
        r == trim_spec(f),
{
    let p = modulus();
    let tf = trim_spec(f);
    lemma_trim(f);
    let g = sub_spec(r, tf);
    lemma_trim(from_fn(max_len(r, tf), sub_coefs(r, tf)));
    assert forall|i: int| 0 <= i < g.len() implies #[trigger] g[i] < P by {
        lemma_add_spec_coef(r, tf, i);
        lemma_mod_bound(coef(r, i) - coef(tf, i), p);
    }
    assert forall|k: int| 0 <= k < xs.len() implies #[trigger] peval(g, xs[k] as int) % modulus() == 0 by {
        let x = xs[k] as int;
        crate::poly_eval::lemma_peval_sub(r, tf, x);
        lemma_peval_trim(f, x);
        lemma_small_mod(ys[k] as nat, p as nat);
        assert(eqm(peval(r, x), ys[k] as int));
        assert(eqm(peval(tf, x), ys[k] as int));
        crate::poly_divides::lemma_eqm_sub(peval(r, x), ys[k] as int, peval(tf, x), ys[k] as int);
        lemma_small_mod(0, p as nat);
    }
    crate::newton_interp::lemma_vanishing_is_zero(g, xs);
    assert forall|i: int| #[trigger] coef(r, i) == coef(tf, i) by {
        lemma_add_spec_coef(r, tf, i);
        assert(coef(g, i) == 0);
        if 0 <= i < r.len() {
            assert(r[i] < P);
        }
        if 0 <= i < tf.len() {
            assert(tf[i] < P);
        }
        if coef(r, i) != coef(tf, i) {
            if coef(r, i) > coef(tf, i) {
                lemma_small_mod((coef(r, i) - coef(tf, i)) as nat, p as nat);
            } else {
                lemma_mod_multiples_vanish(1, coef(r, i) - coef(tf, i), p);
                lemma_small_mod((p + coef(r, i) - coef(tf, i)) as nat, p as nat);
            }
        }
    }
    crate::poly_spec::lemma_trimmed_eq(r, tf);
}

/// The common difference of `xs` when it is an arithmetic progression with a
/// nonzero step and at least two terms.
fn arithmetic_step(xs: &[u32]) -> (r: Option<u32>)
    requires
        reduced(xs@),
    ensures
        r.is_some() <==> (xs.len() >= 2 && ((xs[1] as int) - (xs[0] as int)) % modulus() != 0
            && is_arithmetic(xs@, ((xs[1] as int) - (xs[0] as int)) % modulus())),
        r.is_some() ==> r.unwrap() as int == ((xs[1] as int) - (xs[0] as int)) % modulus() && r.unwrap() < P,
{
    if xs.len() < 2 {
        return None;
    }
    let step = fsub(xs[1], xs[0]);
    if step == 0 {
        return None;
    }
    let mut k: usize = 0;
    while k + 1 < xs.len()
        invariant
            k + 1 <= xs.len(),
            xs.len() >= 2,
            reduced(xs@),
            step as int == ((xs[1] as int) - (xs[0] as int)) % modulus(),
            forall|t: int| 0 <= t < k ==> #[trigger] (((xs[t + 1] as int) - (xs[t] as int)) % modulus()) == step,
        decreases xs.len() - k,
    {
        if fsub(xs[k + 1], xs[k]) != step {
            return None;
        }
        k += 1;
    }
    Some(step)
}

} // verus!
