//! Zero-test verifier and attack scaffolding.
//!
//! A flat 16-word vector encodes 8 coefficients over Fp2 = Fp[x]/(x^2 - 3),
//! is hashed with the Poseidon1 compression mode, and wins iff the polynomial
//! vanishes at the point `(out[0], out[1])` of Fp2.
use vstd::arithmetic::div_mod::*;
use vstd::arithmetic::mul::*;
use vstd::prelude::*;

use crate::field::modulus;
use crate::poly::{splitmix_advance, splitmix_mix};
use crate::mds_family::splitmix_state;
use crate::{compression_model, canonical_mds, canonical_rcs, Poseidon1, P};

verus! {

const PU64: u64 = 2130706433;

pub const ZT_R: usize = 2;

pub const ZT_D: usize = 7;

pub const ZT_ELL: usize = 8;

pub const ZT_RF: usize = 6;

pub const ZT_T: usize = 16;

pub const ZT_BETA: u32 = 3;

pub const ZT_COEFF_LEN: usize = 16;

/// An element `c0 + c1 * x` of Fp2 = Fp[x]/(x^2 - 3).
#[derive(Copy, Clone, Debug, Eq, PartialEq)]
pub struct Fp2 {
    pub c0: u32,
    pub c1: u32,
}

/// Both words reduced mod P.
pub open spec fn fp2_ok(x: Fp2) -> bool {
    x.c0 < P && x.c1 < P
}

pub open spec fn fp2_zero() -> Fp2 {
    Fp2 { c0: 0, c1: 0 }
}

pub open spec fn fp2_add_spec(a: Fp2, b: Fp2) -> Fp2 {
    Fp2 { c0: ((a.c0 + b.c0) % modulus()) as u32, c1: ((a.c1 + b.c1) % modulus()) as u32 }
}

pub open spec fn fp2_sub_spec(a: Fp2, b: Fp2) -> Fp2 {
    Fp2 { c0: ((a.c0 - b.c0) % modulus()) as u32, c1: ((a.c1 - b.c1) % modulus()) as u32 }
}

pub open spec fn fp2_neg_spec(a: Fp2) -> Fp2 {
    Fp2 { c0: ((0 - a.c0) % modulus()) as u32, c1: ((0 - a.c1) % modulus()) as u32 }
}

/// `(a0 + a1 x)(b0 + b1 x) = (a0 b0 + 3 a1 b1) + (a0 b1 + a1 b0) x`.
pub open spec fn fp2_mul_spec(a: Fp2, b: Fp2) -> Fp2 {
    Fp2 {
        c0: ((a.c0 * b.c0 + 3 * (a.c1 * b.c1)) % modulus()) as u32,
        c1: ((a.c0 * b.c1 + a.c1 * b.c0) % modulus()) as u32,
    }
}

impl Fp2 {
    /// The additive identity.
    pub fn zero() -> (r: Fp2)
        ensures
            r == fp2_zero(),
    {
        Fp2 { c0: 0, c1: 0 }
    }

    /// The multiplicative identity.
    pub fn one() -> (r: Fp2)
        ensures
            r == (Fp2 { c0: 1, c1: 0 }),
    {
        Fp2 { c0: 1, c1: 0 }
    }

    pub fn new(c0: u32, c1: u32) -> (r: Self)
        ensures
            r == (Fp2 { c0: c0 % P, c1: c1 % P }),
    {
        Fp2 { c0: c0 % P, c1: c1 % P }
    }

    pub fn is_zero(self) -> (r: bool)
        ensures
            r == (self.c0 == 0 && self.c1 == 0),
    {
        self.c0 == 0 && self.c1 == 0
    }

    pub fn add(self, rhs: Fp2) -> (r: Fp2)
        requires
            fp2_ok(self),
            fp2_ok(rhs),
        ensures
            r == fp2_add_spec(self, rhs),
            fp2_ok(r),
    {
        Fp2 { c0: fp_add(self.c0, rhs.c0), c1: fp_add(self.c1, rhs.c1) }
    }

    pub fn sub(self, rhs: Fp2) -> (r: Fp2)
        requires
            fp2_ok(self),
            fp2_ok(rhs),
        ensures
            r == fp2_sub_spec(self, rhs),
            fp2_ok(r),
    {
        Fp2 { c0: fp_sub(self.c0, rhs.c0), c1: fp_sub(self.c1, rhs.c1) }
    }

    pub fn neg(self) -> (r: Fp2)
        requires
            fp2_ok(self),
        ensures
            r == fp2_neg_spec(self),
            fp2_ok(r),
    {
        Fp2 { c0: fp_neg(self.c0), c1: fp_neg(self.c1) }
    }

    pub fn mul(self, rhs: Fp2) -> (r: Fp2)
        requires
            fp2_ok(self),
            fp2_ok(rhs),
        ensures
            r == fp2_mul_spec(self, rhs),
            fp2_ok(r),
    {
        let t = fp_mul(self.c1, rhs.c1);
        let u = fp_mul(ZT_BETA, t);
        proof {
            lemma_mul_mod_noop_right(3, (self.c1 as int) * (rhs.c1 as int), modulus());
        }
        let c0 = fp_add(fp_mul(self.c0, rhs.c0), u);
        let c1 = fp_add(fp_mul(self.c0, rhs.c1), fp_mul(self.c1, rhs.c0));
        proof {
            lemma_add_mod_noop((self.c0 as int) * (rhs.c0 as int), 3 * ((self.c1 as int) * (rhs.c1 as int)), modulus());
            lemma_add_mod_noop((self.c0 as int) * (rhs.c1 as int), (self.c1 as int) * (rhs.c0 as int), modulus());
        }
        Fp2 { c0, c1 }
    }
}

pub(crate) fn fp_add(a: u32, b: u32) -> (r: u32)
    requires
        a < P,
        b < P,
    ensures
        r < P,
        r as int == ((a as int) + (b as int)) % modulus(),
{
    let s = a + b;
    if s >= P {
        proof {
            lemma_mod_sub_multiples_vanish(s as int, modulus());
            lemma_small_mod((s - P) as nat, P as nat);
        }
        s - P
    } else {
        proof {
            lemma_small_mod(s as nat, P as nat);
        }
        s
    }
}

pub(crate) fn fp_sub(a: u32, b: u32) -> (r: u32)
    requires
        a < P,
        b < P,
    ensures
        r < P,
        r as int == ((a as int) - (b as int)) % modulus(),
{
    if a >= b {
        proof {
            lemma_small_mod((a - b) as nat, P as nat);
        }
        a - b
    } else {
        proof {
            lemma_mod_add_multiples_vanish((a as int) - (b as int), modulus());
            lemma_small_mod((a + P - b) as nat, P as nat);
        }
        a + P - b
    }
}

fn fp_neg(a: u32) -> (r: u32)
    requires
        a < P,
    ensures
        r < P,
        r as int == (0 - (a as int)) % modulus(),
{
    if a == 0 {
        proof {
            lemma_small_mod(0, P as nat);
        }
        0
    } else {
        proof {
            lemma_mod_add_multiples_vanish(0 - (a as int), modulus());
            lemma_small_mod((P - a) as nat, P as nat);
        }
        P - a
    }
}

pub(crate) fn fp_mul(a: u32, b: u32) -> (r: u32)
    ensures
        r < P,
        r as int == ((a as int) * (b as int)) % modulus(),
{
    proof {
        lemma_mul_upper_bound(a as int, u32::MAX as int, b as int, u32::MAX as int);
    }
    ((a as u64 * b as u64) % PU64) as u32
}

// ---------------------------------------------------------------------------
// Coefficient vectors and polynomials over Fp2
// ---------------------------------------------------------------------------

/// The coefficients a flat vector encodes: pairs of words, each reduced.
pub open spec fn coeffs_spec(p_hat: Seq<u32>) -> Seq<Fp2> {
    Seq::new(8, |j: int| Fp2 { c0: (p_hat[2 * j] % P) as u32, c1: (p_hat[2 * j + 1] % P) as u32 })
}

/// The flat encoding of coefficients.
pub open spec fn flat_spec(cs: Seq<Fp2>) -> Seq<u32> {
    Seq::new(16, |i: int| if i % 2 == 0 { cs[i / 2].c0 } else { cs[i / 2].c1 })
}

/// Index of the last nonzero coefficient, -1 when all vanish.
pub open spec fn fp2_degree(cs: Seq<Fp2>) -> int
    decreases cs.len(),
{
    if cs.len() == 0 {
        -1
    } else if !(cs.last().c0 == 0 && cs.last().c1 == 0) {
        cs.len() - 1
    } else {
        fp2_degree(cs.drop_last())
    }
}

/// Horner evaluation: `(...(c_n x + c_{n-1}) x + ...) x + c_0`.
pub open spec fn fp2_eval(cs: Seq<Fp2>, x: Fp2) -> Fp2
    decreases cs.len(),
{
    if cs.len() == 0 {
        fp2_zero()
    } else if cs.len() == 1 {
        cs[0]
    } else {
        fp2_add_spec(fp2_mul_spec(fp2_eval(cs.drop_first(), x), x), cs[0])
    }
}

pub fn coeffs_from_flat(p_hat: &[u32]) -> (r: Option<[Fp2; 8]>)
    ensures
        p_hat.len() != ZT_COEFF_LEN ==> r.is_none(),
        p_hat.len() == ZT_COEFF_LEN ==> r.is_some() && r.unwrap()@ == coeffs_spec(p_hat@),
{
    if p_hat.len() != ZT_COEFF_LEN {
        return None;
    }
    let mut coeffs = [Fp2 { c0: 0, c1: 0 }; 8];
    let mut j: usize = 0;
    while j <= ZT_D
        invariant
            p_hat.len() == 16,
            j <= 8,
            forall|k: int| 0 <= k < j ==> #[trigger] coeffs@[k] == coeffs_spec(p_hat@)[k],
        decreases 8 - j,
    {
        coeffs[j] = Fp2::new(p_hat[2 * j], p_hat[2 * j + 1]);
        j += 1;
    }
    assert(coeffs@ =~= coeffs_spec(p_hat@));
    Some(coeffs)
}

pub fn flatten_coeffs(coeffs: &[Fp2; 8]) -> (p_hat: [u32; ZT_COEFF_LEN])
    ensures
        p_hat@ == flat_spec(coeffs@),
{
    let mut p_hat = [0u32; ZT_COEFF_LEN];
    let mut j: usize = 0;
    while j <= ZT_D
        invariant
            j <= 8,
            forall|i: int| 0 <= i < 2 * j ==> #[trigger] p_hat@[i] == flat_spec(coeffs@)[i],
        decreases 8 - j,
    {
        p_hat[2 * j] = coeffs[j].c0;
        p_hat[2 * j + 1] = coeffs[j].c1;
        j += 1;
    }
    assert(p_hat@ =~= flat_spec(coeffs@));
    p_hat
}

pub fn degree(coeffs: &[Fp2]) -> (d: isize)
    requires
        coeffs.len() < isize::MAX,
    ensures
        d as int == fp2_degree(coeffs@),
{
    let mut n = coeffs.len();
    assert(coeffs@.subrange(0, n as int) =~= coeffs@);
    while n > 0
        invariant
            n <= coeffs.len() < isize::MAX,
            fp2_degree(coeffs@.subrange(0, n as int)) == fp2_degree(coeffs@),
        decreases n,
    {
        if !coeffs[n - 1].is_zero() {
            return (n - 1) as isize;
        }
        assert(coeffs@.subrange(0, n as int).drop_last() =~= coeffs@.subrange(0, n - 1));
        n -= 1;
    }
    -1
}

pub fn eval_poly(coeffs: &[Fp2], x: Fp2) -> (r: Fp2)
    requires
        fp2_ok(x),
        forall|i: int| 0 <= i < coeffs.len() ==> #[trigger] fp2_ok(coeffs@[i]),
    ensures
        r == fp2_eval(coeffs@, x),
        fp2_ok(r),
{
    let n = coeffs.len();
    if n == 0 {
        return Fp2 { c0: 0, c1: 0 };
    }
    let mut acc = coeffs[n - 1];
    let mut i: usize = n - 1;
    assert(coeffs@.subrange((n - 1) as int, n as int) =~= seq![coeffs@[n - 1]]);
    while i > 0
        invariant
            0 <= i < n == coeffs.len(),
            fp2_ok(x),
            forall|k: int| 0 <= k < coeffs.len() ==> #[trigger] fp2_ok(coeffs@[k]),
            fp2_ok(acc),
            acc == fp2_eval(coeffs@.subrange(i as int, n as int), x),
        decreases i,
    {
        let c = coeffs[i - 1];
        acc = acc.mul(x).add(c);
        assert(coeffs@.subrange(i - 1, n as int).drop_first() =~= coeffs@.subrange(i as int, n as int));
        i -= 1;
    }
    assert(coeffs@.subrange(0, n as int) =~= coeffs@);
    acc
}

// ---------------------------------------------------------------------------
// The verifier
// ---------------------------------------------------------------------------

/// The point the hash of a flat vector names, for a given Poseidon1 model.
pub open spec fn hash_point_model(rcs: Seq<Seq<u32>>, m: Seq<Seq<u32>>, r_f: int, r_p: int, p_hat: Seq<u32>) -> Fp2 {
    let out = compression_model(rcs, m, r_f, r_p, p_hat.map_values(|v: u32| (v % P) as u32));
    Fp2 { c0: out[0] as u32, c1: out[1] as u32 }
}

/// The residual `P(H(p_hat))`, when `p_hat` has 16 words and degree 1..=7.
pub open spec fn residual_model(rcs: Seq<Seq<u32>>, m: Seq<Seq<u32>>, r_f: int, r_p: int, p_hat: Seq<u32>) -> Option<Fp2> {
    if p_hat.len() != 16 {
        None
    } else {
        let cs = coeffs_spec(p_hat);
        let d = fp2_degree(cs);
        if d < 1 || d > 7 {
            None
        } else {
            Some(fp2_eval(cs, hash_point_model(rcs, m, r_f, r_p, p_hat)))
        }
    }
}

/// The residual for the instance `pos`.
pub open spec fn residual_spec(pos: &Poseidon1, p_hat: Seq<u32>) -> Option<Fp2> {
    residual_model(pos.rc_model(), pos.mds_model(), pos.r_f as int, pos.r_p as int, p_hat)
}

/// The residual is zero.
pub open spec fn is_zero_residual(r: Option<Fp2>) -> bool {
    r.is_some() && r.unwrap().c0 == 0 && r.unwrap().c1 == 0
}

/// The low `k` bits of the residual's two words vanish.
pub open spec fn is_relaxed_residual(r: Option<Fp2>, k: u32) -> bool {
    r.is_some() && r.unwrap().c0 & low_mask_spec(k) == 0 && r.unwrap().c1 & low_mask_spec(k) == 0
}

pub fn hash_point(pos: &Poseidon1, p_hat: &[u32]) -> (r: Option<Fp2>)
    requires
        pos.wf(),
    ensures
        p_hat.len() != ZT_COEFF_LEN ==> r.is_none(),
        p_hat.len() == ZT_COEFF_LEN ==> r == Some(
            hash_point_model(pos.rc_model(), pos.mds_model(), pos.r_f as int, pos.r_p as int, p_hat@),
        ),
        r.is_some() ==> fp2_ok(r.unwrap()),
{
    if p_hat.len() != ZT_COEFF_LEN {
        return None;
    }
    let mut input = [0u32; ZT_COEFF_LEN];
    let mut i: usize = 0;
    while i < ZT_COEFF_LEN
        invariant
            p_hat.len() == 16,
            i <= 16,
            forall|j: int| 0 <= j < i ==> #[trigger] input@[j] == (p_hat@[j] % P) as u32,
        decreases 16 - i,
    {
        input[i] = p_hat[i] % P;
        i += 1;
    }
    assert(input@ =~= p_hat@.map_values(|v: u32| (v % P) as u32));
    let out = pos.compression_mode_hash(&input, ZT_COEFF_LEN);
    let r = Fp2::new(out[0], out[1]);
    proof {
        lemma_small_mod(out[0] as nat, P as nat);
        lemma_small_mod(out[1] as nat, P as nat);
    }
    Some(r)
}

pub fn zerotest_residual(pos: &Poseidon1, p_hat: &[u32]) -> (r: Option<Fp2>)
    requires
        pos.wf(),
    ensures
        r == residual_spec(pos, p_hat@),
        r.is_some() ==> fp2_ok(r.unwrap()),
{
    let coeffs = match coeffs_from_flat(p_hat) {
        Some(c) => c,
        None => {
            return None;
        },
    };
    let deg = degree(&coeffs);
    if deg < 1 || deg > ZT_D as isize {
        return None;
    }
    let a0 = match hash_point(pos, p_hat) {
        Some(a) => a,
        None => {
            return None;
        },
    };
    proof {
        assert forall|i: int| 0 <= i < 8 implies #[trigger] fp2_ok(coeffs@[i]) by {
        }
    }
    Some(eval_poly(&coeffs, a0))
}

pub fn verify_zerotest(pos: &Poseidon1, p_hat: &[u32]) -> (r: bool)
    requires
        pos.wf(),
    ensures
        r == is_zero_residual(residual_spec(pos, p_hat@)),
{
    match zerotest_residual(pos, p_hat) {
        Some(x) => x.is_zero(),
        None => false,
    }
}

pub fn verify_zerotest_rp(rp: usize, p_hat: &[u32]) -> (r: bool)
    requires
        (ZT_RF + rp) * 16 <= u32::MAX,
    ensures
        r == is_zero_residual(residual_model(canonical_rcs(3, 6, rp as nat), canonical_mds(), 6, rp as int, p_hat@)),
{
    let pos = Poseidon1::new_canonical(3, ZT_T, ZT_RF, rp);
    verify_zerotest(&pos, p_hat)
}

pub fn verify_zerotest_relaxed(pos: &Poseidon1, p_hat: &[u32], k: u32) -> (r: bool)
    requires
        pos.wf(),
    ensures
        r == is_relaxed_residual(residual_spec(pos, p_hat@), k),
{
    let res = match zerotest_residual(pos, p_hat) {
        Some(x) => x,
        None => {
            return false;
        },
    };
    let mask = low_mask(k);
    (res.c0 & mask) == 0 && (res.c1 & mask) == 0
}

pub fn verify_zerotest_relaxed_rp(rp: usize, p_hat: &[u32], k: u32) -> (r: bool)
    requires
        (ZT_RF + rp) * 16 <= u32::MAX,
    ensures
        r == is_relaxed_residual(residual_model(canonical_rcs(3, 6, rp as nat), canonical_mds(), 6, rp as int, p_hat@), k),
{
    let pos = Poseidon1::new_canonical(3, ZT_T, ZT_RF, rp);
    verify_zerotest_relaxed(&pos, p_hat, k)
}

/// The mask of the low `k` bits (all 32 bits from `k = 31` on).
pub open spec fn low_mask_spec(k: u32) -> u32 {
    if k == 0 {
        0
    } else if k >= 31 {
        u32::MAX
    } else {
        ((1u32 << k) - 1) as u32
    }
}

fn low_mask(k: u32) -> (m: u32)
    ensures
        m == low_mask_spec(k),
{
    if k == 0 {
        0
    } else if k >= 31 {
        u32::MAX
    } else {
        assert(1u32 << k >= 1) by (bit_vector)
            requires
                0 < k < 31;
        (1u32 << k) - 1
    }
}

// ---------------------------------------------------------------------------
// Root-first reduction
// ---------------------------------------------------------------------------

/// Coefficients of `P(z) = (z - root) * G(z)` for `G` of degree at most 6.
pub open spec fn root_first_spec(root: Fp2, g: Seq<Fp2>) -> Seq<Fp2> {
    Seq::new(
        8,
        |j: int|
            if j == 0 {
                fp2_mul_spec(fp2_neg_spec(root), g[0])
            } else if j < 7 {
                fp2_sub_spec(g[j - 1], fp2_mul_spec(root, g[j]))
            } else {
                g[6]
            },
    )
}

/// Build `P(z) = (z - root) * G(z)`, where `G` has degree <= 6: the result
/// takes the value `(z - root) G(z)` at every `z`, and its top coefficient is
/// that of `G`.
pub fn root_first_coeffs(root: Fp2, cofactor: &[Fp2; 7]) -> (coeffs: [Fp2; 8])
    requires
        fp2_ok(root),
        forall|j: int| 0 <= j < 7 ==> #[trigger] fp2_ok(cofactor@[j]),
    ensures
        coeffs@ == root_first_spec(root, cofactor@),
        forall|j: int| 0 <= j < 8 ==> #[trigger] fp2_ok(coeffs@[j]),
        coeffs@[7] == cofactor@[6],
        (exists|k: int| 0 <= k < 7 && !#[trigger] fp2_is_zero(cofactor@[k])) ==> fp2_degree(coeffs@) == fp2_degree(cofactor@) + 1,
        forall|x: Fp2| fp2_ok(x) ==> #[trigger] fp2_eval(coeffs@, x) == fp2_mul_spec(fp2_sub_spec(x, root), fp2_eval(cofactor@, x)),
{
    let mut coeffs = [Fp2 { c0: 0, c1: 0 }; 8];
    coeffs[0] = root.neg().mul(cofactor[0]);
    let mut j: usize = 1;
    while j < ZT_D
        invariant
            1 <= j <= 7,
            fp2_ok(root),
            forall|k: int| 0 <= k < 7 ==> #[trigger] fp2_ok(cofactor@[k]),
            forall|k: int| 0 <= k < j ==> #[trigger] coeffs@[k] == root_first_spec(root, cofactor@)[k],
            forall|k: int| 0 <= k < j ==> #[trigger] fp2_ok(coeffs@[k]),
        decreases 7 - j,
    {
        coeffs[j] = cofactor[j - 1].sub(root.mul(cofactor[j]));
        j += 1;
    }
    coeffs[ZT_D] = cofactor[ZT_D - 1];
    assert(coeffs@ =~= root_first_spec(root, cofactor@));
    proof {
        assert forall|x: Fp2| fp2_ok(x) implies #[trigger] fp2_eval(coeffs@, x) == fp2_mul_spec(
            fp2_sub_spec(x, root),
            fp2_eval(cofactor@, x),
        ) by {
            law_root_first_factors(root, cofactor@, x);
        }
        if exists|k: int| 0 <= k < 7 && !#[trigger] fp2_is_zero(cofactor@[k]) {
            let m = lemma_top_nonzero(cofactor@, 6);
            lemma_root_first_degree(root, cofactor@, m);
            lemma_fp2_degree_top(cofactor@, m);
        }
    }
    coeffs
}

/// `a r + (b - r a) == b` in Fp2.
proof fn lemma_fp2_cancel(a: Fp2, b: Fp2, r: Fp2)
    requires
        fp2_ok(a),
        fp2_ok(b),
        fp2_ok(r),
    ensures
        fp2_add_spec(fp2_mul_spec(a, r), fp2_sub_spec(b, fp2_mul_spec(r, a))) == b,
{
    let p = modulus();
    let x0 = (a.c0 as int) * (r.c0 as int) + 3 * ((a.c1 as int) * (r.c1 as int));
    let x1 = (a.c0 as int) * (r.c1 as int) + (a.c1 as int) * (r.c0 as int);
    assert((r.c0 as int) * (a.c0 as int) + 3 * ((r.c1 as int) * (a.c1 as int)) == x0) by (nonlinear_arith)
        requires
            x0 == (a.c0 as int) * (r.c0 as int) + 3 * ((a.c1 as int) * (r.c1 as int));
    assert((r.c0 as int) * (a.c1 as int) + (r.c1 as int) * (a.c0 as int) == x1) by (nonlinear_arith)
        requires
            x1 == (a.c0 as int) * (r.c1 as int) + (a.c1 as int) * (r.c0 as int);
    lemma_cancel_mod(x0, b.c0 as int);
    lemma_cancel_mod(x1, b.c1 as int);
}

/// `(x mod p) + ((b - x mod p) mod p) == b (mod p)` for reduced `b`.
proof fn lemma_cancel_mod(x: int, b: int)
    requires
        0 <= b < modulus(),
    ensures
        ((x % modulus()) + ((b - x % modulus()) % modulus())) % modulus() == b,
{
    let p = modulus();
    lemma_add_mod_noop_right(x % p, b - x % p, p);
    lemma_small_mod(b as nat, p as nat);
}

/// `a r + (-r) a == 0` in Fp2.
proof fn lemma_fp2_cancel_neg(a: Fp2, r: Fp2)
    requires
        fp2_ok(a),
        fp2_ok(r),
    ensures
        fp2_add_spec(fp2_mul_spec(a, r), fp2_mul_spec(fp2_neg_spec(r), a)) == fp2_zero(),
{
    let p = modulus();
    let n0 = (0 - r.c0) % p;
    let n1 = (0 - r.c1) % p;
    let x0 = (a.c0 as int) * (r.c0 as int) + 3 * ((a.c1 as int) * (r.c1 as int));
    let x1 = (a.c0 as int) * (r.c1 as int) + (a.c1 as int) * (r.c0 as int);
    let y0 = n0 * (a.c0 as int) + 3 * (n1 * (a.c1 as int));
    let y1 = n0 * (a.c1 as int) + n1 * (a.c0 as int);
    // (-r) a == -(a r) (mod p)
    lemma_mul_mod_noop_left(0 - r.c0, a.c0 as int, p);
    lemma_mul_mod_noop_left(0 - r.c1, a.c1 as int, p);
    lemma_mul_mod_noop_left(0 - r.c0, a.c1 as int, p);
    lemma_mul_mod_noop_left(0 - r.c1, a.c0 as int, p);
    lemma_mul_mod_noop_right(3, n1 * (a.c1 as int), p);
    lemma_mul_mod_noop_right(3, (0 - r.c1) * (a.c1 as int), p);
    lemma_add_mod_noop(n0 * (a.c0 as int), 3 * (n1 * (a.c1 as int)), p);
    lemma_add_mod_noop((0 - r.c0) * (a.c0 as int), 3 * ((0 - r.c1) * (a.c1 as int)), p);
    lemma_add_mod_noop(n0 * (a.c1 as int), n1 * (a.c0 as int), p);
    lemma_add_mod_noop((0 - r.c0) * (a.c1 as int), (0 - r.c1) * (a.c0 as int), p);
    assert((0 - r.c0) * (a.c0 as int) + 3 * ((0 - r.c1) * (a.c1 as int)) == -x0) by (nonlinear_arith)
        requires
            x0 == (a.c0 as int) * (r.c0 as int) + 3 * ((a.c1 as int) * (r.c1 as int));
    assert((0 - r.c0) * (a.c1 as int) + (0 - r.c1) * (a.c0 as int) == -x1) by (nonlinear_arith)
        requires
            x1 == (a.c0 as int) * (r.c1 as int) + (a.c1 as int) * (r.c0 as int);
    assert(y0 % p == (-x0) % p);
    assert(y1 % p == (-x1) % p);
    lemma_add_mod_noop(x0, y0, p);
    lemma_add_mod_noop(x0, -x0, p);
    lemma_add_mod_noop(x1, y1, p);
    lemma_add_mod_noop(x1, -x1, p);
    lemma_small_mod(0, p as nat);
}

/// Horner evaluation of `(z - root) G(z)` at `root`, from the top down,
/// passes through the coefficients of `G`.
proof fn lemma_root_first_tail(root: Fp2, g: Seq<Fp2>, j: int)
    requires
        fp2_ok(root),
        g.len() == 7,
        forall|k: int| 0 <= k < 7 ==> #[trigger] fp2_ok(g[k]),
        1 <= j <= 7,
    ensures
        fp2_eval(root_first_spec(root, g).subrange(j, 8), root) == g[j - 1],
    decreases 8 - j,
{
    let cs = root_first_spec(root, g);
    if j == 7 {
        assert(cs.subrange(7, 8).len() == 1);
    } else {
        lemma_root_first_tail(root, g, j + 1);
        assert(cs.subrange(j, 8).drop_first() =~= cs.subrange(j + 1, 8));
        lemma_fp2_cancel(g[j], g[j - 1], root);
    }
}

/// A root-first polynomial vanishes at its root.
pub proof fn lemma_root_first_vanishes(root: Fp2, g: Seq<Fp2>)
    requires
        fp2_ok(root),
        g.len() == 7,
        forall|k: int| 0 <= k < 7 ==> #[trigger] fp2_ok(g[k]),
    ensures
        fp2_eval(root_first_spec(root, g), root) == fp2_zero(),
{
    let cs = root_first_spec(root, g);
    lemma_root_first_tail(root, g, 1);
    assert(cs.drop_first() =~= cs.subrange(1, 8));
    lemma_fp2_cancel_neg(g[0], root);
}

/// `a` stands for `x0 + x1 w`, `w^2 = 3`, with both parts taken mod p.
pub open spec fn fp2_is(a: Fp2, x0: int, x1: int) -> bool {
    a.c0 as int == x0 % modulus() && a.c1 as int == x1 % modulus()
}

proof fn lemma_fp2_is_ok(a: Fp2)
    requires
        fp2_ok(a),
    ensures
        fp2_is(a, a.c0 as int, a.c1 as int),
{
    lemma_small_mod(a.c0 as nat, modulus() as nat);
    lemma_small_mod(a.c1 as nat, modulus() as nat);
}

proof fn lemma_fp2_is_add(a: Fp2, b: Fp2, x0: int, x1: int, y0: int, y1: int)
    requires
        fp2_is(a, x0, x1),
        fp2_is(b, y0, y1),
    ensures
        fp2_is(fp2_add_spec(a, b), x0 + y0, x1 + y1),
        fp2_ok(fp2_add_spec(a, b)),
{
    let p = modulus();
    lemma_add_mod_noop(x0, y0, p);
    lemma_add_mod_noop(x1, y1, p);
    lemma_mod_bound(a.c0 + b.c0, p);
    lemma_mod_bound(a.c1 + b.c1, p);
}

proof fn lemma_fp2_is_sub(a: Fp2, b: Fp2, x0: int, x1: int, y0: int, y1: int)
    requires
        fp2_is(a, x0, x1),
        fp2_is(b, y0, y1),
    ensures
        fp2_is(fp2_sub_spec(a, b), x0 - y0, x1 - y1),
        fp2_ok(fp2_sub_spec(a, b)),
{
    let p = modulus();
    lemma_sub_mod_noop(x0, y0, p);
    lemma_sub_mod_noop(x1, y1, p);
    lemma_mod_bound(a.c0 - b.c0, p);
    lemma_mod_bound(a.c1 - b.c1, p);
}

proof fn lemma_fp2_is_neg(a: Fp2, x0: int, x1: int)
    requires
        fp2_is(a, x0, x1),
    ensures
        fp2_is(fp2_neg_spec(a), -x0, -x1),
{
    let p = modulus();
    lemma_sub_mod_noop(0, x0, p);
    lemma_sub_mod_noop(0, x1, p);
    lemma_small_mod(0, p as nat);
}

proof fn lemma_fp2_is_mul(a: Fp2, b: Fp2, x0: int, x1: int, y0: int, y1: int)
    requires
        fp2_is(a, x0, x1),
        fp2_is(b, y0, y1),
    ensures
        fp2_is(fp2_mul_spec(a, b), x0 * y0 + 3 * (x1 * y1), x0 * y1 + x1 * y0),
        fp2_ok(fp2_mul_spec(a, b)),
{
    let p = modulus();
    let a0 = a.c0 as int;
    let a1 = a.c1 as int;
    let b0 = b.c0 as int;
    let b1 = b.c1 as int;
    lemma_mul_mod_noop(x0, y0, p);
    lemma_mul_mod_noop(x1, y1, p);
    lemma_mul_mod_noop(x0, y1, p);
    lemma_mul_mod_noop(x1, y0, p);
    lemma_add_mod_noop(a0 * b0, 3 * (a1 * b1), p);
    lemma_mul_mod_noop_right(3, a1 * b1, p);
    lemma_add_mod_noop(x0 * y0, 3 * (x1 * y1), p);
    lemma_mul_mod_noop_right(3, x1 * y1, p);
    lemma_add_mod_noop(a0 * b1, a1 * b0, p);
    lemma_add_mod_noop(x0 * y1, x1 * y0, p);
    lemma_mod_bound(a0 * b0 + 3 * (a1 * b1), p);
    lemma_mod_bound(a0 * b1 + a1 * b0, p);
}

/// The product `(d t) z` regrouped as `d (t z)`, by parts.
proof fn lemma_twist_assoc(d0: int, d1: int, t0: int, t1: int, z0: int, z1: int)
    ensures
        (d0 * t0 + 3 * (d1 * t1)) * z0 + 3 * ((d0 * t1 + d1 * t0) * z1) == d0 * (t0 * z0 + 3 * (t1 * z1)) + 3 * (d1 * (t0
            * z1 + t1 * z0)),
        (d0 * t0 + 3 * (d1 * t1)) * z1 + (d0 * t1 + d1 * t0) * z0 == d0 * (t0 * z1 + t1 * z0) + d1 * (t0 * z0 + 3 * (t1
            * z1)),
{
    lemma_mul_is_distributive_add_other_way(z0, d0 * t0, 3 * (d1 * t1));
    lemma_mul_is_distributive_add_other_way(z1, d0 * t0, 3 * (d1 * t1));
    lemma_mul_is_distributive_add_other_way(z1, d0 * t1, d1 * t0);
    lemma_mul_is_distributive_add_other_way(z0, d0 * t1, d1 * t0);
    lemma_mul_is_associative(3, d1 * t1, z0);
    lemma_mul_is_associative(3, d1 * t1, z1);
    lemma_mul_is_distributive_add(d0, t0 * z0, 3 * (t1 * z1));
    lemma_mul_is_distributive_add(d1, t0 * z1, t1 * z0);
    lemma_mul_is_distributive_add(d0, t0 * z1, t1 * z0);
    lemma_mul_is_distributive_add(d1, t0 * z0, 3 * (t1 * z1));
    lemma_mul_is_associative(d0, 3, t1 * z1);
    lemma_mul_is_associative(d1, 3, t1 * z1);
    lemma_mul_is_associative(3, d0, t1 * z1);
    lemma_mul_is_associative(3, d1, t1 * z1);
    assert(d0 * 3 == 3 * d0 && d1 * 3 == 3 * d1);
    lemma_mul_is_associative(d0, t0, z0);
    lemma_mul_is_associative(d1, t1, z0);
    lemma_mul_is_associative(d0, t1, z1);
    lemma_mul_is_associative(d1, t0, z1);
    lemma_mul_is_associative(d0, t0, z1);
    lemma_mul_is_associative(d1, t1, z1);
    lemma_mul_is_associative(d0, t1, z0);
    lemma_mul_is_associative(d1, t0, z0);
}

/// `w z - r w == (z - r) w`, by parts.
proof fn lemma_twist_shift(w0: int, w1: int, z0: int, z1: int, r0: int, r1: int)
    by (nonlinear_arith)
    ensures
        w0 * z0 + 3 * (w1 * z1) - (r0 * w0 + 3 * (r1 * w1)) == (z0 - r0) * w0 + 3 * ((z1 - r1) * w1),
        w0 * z1 + w1 * z0 - (r0 * w1 + r1 * w0) == (z0 - r0) * w1 + (z1 - r1) * w0,
{
}

/// Values of reduced coefficients are reduced.
proof fn lemma_fp2_eval_ok(cs: Seq<Fp2>, x: Fp2)
    requires
        forall|k: int| 0 <= k < cs.len() ==> #[trigger] fp2_ok(cs[k]),
    ensures
        fp2_ok(fp2_eval(cs, x)),
    decreases cs.len(),
{
    if cs.len() > 1 {
        lemma_fp2_eval_ok(cs.drop_first(), x);
        let p = modulus();
        let e = fp2_eval(cs.drop_first(), x);
        let m = fp2_mul_spec(e, x);
        lemma_mod_bound(e.c0 * x.c0 + 3 * (e.c1 * x.c1), p);
        lemma_mod_bound(e.c0 * x.c1 + e.c1 * x.c0, p);
        lemma_mod_bound(m.c0 + cs[0].c0, p);
        lemma_mod_bound(m.c1 + cs[0].c1, p);
    }
}

/// The Horner tails of `(z - root) G(z)`, at any `z`: the tail from
/// coefficient `j` is `(z - root)` times the tail of `G` from `j`, plus
/// coefficient `j - 1` of `G`.
proof fn lemma_root_first_tail_at(root: Fp2, g: Seq<Fp2>, z: Fp2, j: int)
    requires
        fp2_ok(root),
        fp2_ok(z),
        g.len() == 7,
        forall|k: int| 0 <= k < 7 ==> #[trigger] fp2_ok(g[k]),
        1 <= j <= 7,
    ensures
        fp2_eval(root_first_spec(root, g).subrange(j, 8), z) == fp2_add_spec(
            fp2_mul_spec(fp2_sub_spec(z, root), fp2_eval(g.subrange(j, 7), z)),
            g[j - 1],
        ),
    decreases 8 - j,
{
    let cs = root_first_spec(root, g);
    let d = fp2_sub_spec(z, root);
    let (z0, z1, r0, r1) = (z.c0 as int, z.c1 as int, root.c0 as int, root.c1 as int);
    let dd0 = z0 - r0;
    let dd1 = z1 - r1;
    lemma_fp2_is_ok(z);
    lemma_fp2_is_ok(root);
    lemma_fp2_is_sub(z, root, z0, z1, r0, r1);
    let u = g[j - 1];
    lemma_fp2_is_ok(u);
    if j == 7 {
        assert(cs.subrange(7, 8).len() == 1);
        assert(g.subrange(7, 7).len() == 0);
        let zero = fp2_eval(g.subrange(7, 7), z);
        assert(zero == fp2_zero());
        lemma_small_mod(0, modulus() as nat);
        assert(fp2_is(zero, 0, 0));
        lemma_fp2_is_mul(d, zero, dd0, dd1, 0, 0);
        assert(dd0 * 0 + 3 * (dd1 * 0) == 0 && dd0 * 0 + dd1 * 0 == 0) by (nonlinear_arith);
        lemma_fp2_is_add(fp2_mul_spec(d, zero), u, 0, 0, u.c0 as int, u.c1 as int);
        lemma_small_mod(u.c0 as nat, modulus() as nat);
        lemma_small_mod(u.c1 as nat, modulus() as nat);
    } else {
        lemma_root_first_tail_at(root, g, z, j + 1);
        let e1 = fp2_eval(cs.subrange(j + 1, 8), z);
        let t1 = fp2_eval(g.subrange(j + 1, 7), z);
        let tj = fp2_eval(g.subrange(j, 7), z);
        let gj = g[j];
        assert(cs.subrange(j, 8).drop_first() =~= cs.subrange(j + 1, 8));
        assert(fp2_eval(cs.subrange(j, 8), z) == fp2_add_spec(fp2_mul_spec(e1, z), cs[j]));
        lemma_fp2_eval_ok(g.subrange(j + 1, 7), z);
        lemma_fp2_is_ok(t1);
        lemma_fp2_is_ok(gj);
        let (t0, tt1, w0, w1, v0, v1) = (t1.c0 as int, t1.c1 as int, gj.c0 as int, gj.c1 as int, u.c0 as int, u.c1 as int);
        // tail of G from j
        if j == 6 {
            assert(g.subrange(6, 7).len() == 1);
            assert(tj == gj);
            assert(t1 == fp2_zero());
            lemma_small_mod(0, modulus() as nat);
            assert(t0 == 0 && tt1 == 0);
            assert(t0 * z0 + 3 * (tt1 * z1) + w0 == w0 && t0 * z1 + tt1 * z0 + w1 == w1) by (nonlinear_arith)
                requires
                    t0 == 0,
                    tt1 == 0;
        } else {
            assert(g.subrange(j, 7).drop_first() =~= g.subrange(j + 1, 7));
            assert(tj == fp2_add_spec(fp2_mul_spec(t1, z), gj));
            lemma_fp2_is_mul(t1, z, t0, tt1, z0, z1);
            lemma_fp2_is_add(fp2_mul_spec(t1, z), gj, t0 * z0 + 3 * (tt1 * z1), t0 * z1 + tt1 * z0, w0, w1);
        }
        let s0 = t0 * z0 + 3 * (tt1 * z1) + w0;
        let s1 = t0 * z1 + tt1 * z0 + w1;
        assert(fp2_is(tj, s0, s1));
        // left side
        lemma_fp2_is_mul(d, t1, dd0, dd1, t0, tt1);
        let m0 = dd0 * t0 + 3 * (dd1 * tt1);
        let m1 = dd0 * tt1 + dd1 * t0;
        lemma_fp2_is_add(fp2_mul_spec(d, t1), gj, m0, m1, w0, w1);
        assert(fp2_is(e1, m0 + w0, m1 + w1));
        lemma_fp2_is_mul(e1, z, m0 + w0, m1 + w1, z0, z1);
        lemma_fp2_is_mul(root, gj, r0, r1, w0, w1);
        lemma_fp2_is_sub(u, fp2_mul_spec(root, gj), v0, v1, r0 * w0 + 3 * (r1 * w1), r0 * w1 + r1 * w0);
        assert(cs[j] == fp2_sub_spec(u, fp2_mul_spec(root, gj)));
        let x0 = (m0 + w0) * z0 + 3 * ((m1 + w1) * z1) + (v0 - (r0 * w0 + 3 * (r1 * w1)));
        let x1 = (m0 + w0) * z1 + (m1 + w1) * z0 + (v1 - (r0 * w1 + r1 * w0));
        lemma_fp2_is_add(fp2_mul_spec(e1, z), cs[j], (m0 + w0) * z0 + 3 * ((m1 + w1) * z1), (m0 + w0) * z1 + (m1 + w1) * z0,
            v0 - (r0 * w0 + 3 * (r1 * w1)), v1 - (r0 * w1 + r1 * w0));
        // right side
        lemma_fp2_is_mul(d, tj, dd0, dd1, s0, s1);
        lemma_fp2_is_add(fp2_mul_spec(d, tj), u, dd0 * s0 + 3 * (dd1 * s1), dd0 * s1 + dd1 * s0, v0, v1);
        let y0 = dd0 * s0 + 3 * (dd1 * s1) + v0;
        let y1 = dd0 * s1 + dd1 * s0 + v1;
        lemma_twist_assoc(dd0, dd1, t0, tt1, z0, z1);
        lemma_twist_shift(w0, w1, z0, z1, r0, r1);
        lemma_mul_is_distributive_add_other_way(z0, m0, w0);
        lemma_mul_is_distributive_add_other_way(z1, m1, w1);
        lemma_mul_is_distributive_add_other_way(z1, m0, w0);
        lemma_mul_is_distributive_add_other_way(z0, m1, w1);
        lemma_mul_is_distributive_add(dd0, t0 * z0 + 3 * (tt1 * z1), w0);
        lemma_mul_is_distributive_add(dd1, t0 * z1 + tt1 * z0, w1);
        lemma_mul_is_distributive_add(dd0, t0 * z1 + tt1 * z0, w1);
        lemma_mul_is_distributive_add(dd1, t0 * z0 + 3 * (tt1 * z1), w0);
        assert(x0 == y0 && x1 == y1);
    }
}

/// The root-first construction is exact at every point: the polynomial built
/// from `root` and the cofactor `G` takes the value `(z - root) G(z)` at every
/// `z` of the field.
pub proof fn law_root_first_factors(root: Fp2, g: Seq<Fp2>, z: Fp2)
    requires
        fp2_ok(root),
        fp2_ok(z),
        g.len() == 7,
        forall|k: int| 0 <= k < 7 ==> #[trigger] fp2_ok(g[k]),
    ensures
        fp2_eval(root_first_spec(root, g), z) == fp2_mul_spec(fp2_sub_spec(z, root), fp2_eval(g, z)),
{
    let cs = root_first_spec(root, g);
    let d = fp2_sub_spec(z, root);
    let (z0, z1, r0, r1) = (z.c0 as int, z.c1 as int, root.c0 as int, root.c1 as int);
    let dd0 = z0 - r0;
    let dd1 = z1 - r1;
    lemma_fp2_is_ok(z);
    lemma_fp2_is_ok(root);
    lemma_fp2_is_sub(z, root, z0, z1, r0, r1);
    lemma_root_first_tail_at(root, g, z, 1);
    let e1 = fp2_eval(cs.subrange(1, 8), z);
    let t1 = fp2_eval(g.subrange(1, 7), z);
    let g0 = g[0];
    assert(cs.drop_first() =~= cs.subrange(1, 8));
    assert(fp2_eval(cs, z) == fp2_add_spec(fp2_mul_spec(e1, z), cs[0]));
    assert(g.drop_first() =~= g.subrange(1, 7));
    assert(fp2_eval(g, z) == fp2_add_spec(fp2_mul_spec(t1, z), g0));
    lemma_fp2_eval_ok(g.subrange(1, 7), z);
    lemma_fp2_is_ok(t1);
    lemma_fp2_is_ok(g0);
    let (t0, tt1, w0, w1) = (t1.c0 as int, t1.c1 as int, g0.c0 as int, g0.c1 as int);
    lemma_fp2_is_mul(t1, z, t0, tt1, z0, z1);
    lemma_fp2_is_add(fp2_mul_spec(t1, z), g0, t0 * z0 + 3 * (tt1 * z1), t0 * z1 + tt1 * z0, w0, w1);
    let s0 = t0 * z0 + 3 * (tt1 * z1) + w0;
    let s1 = t0 * z1 + tt1 * z0 + w1;
    lemma_fp2_is_mul(d, t1, dd0, dd1, t0, tt1);
    let m0 = dd0 * t0 + 3 * (dd1 * tt1);
    let m1 = dd0 * tt1 + dd1 * t0;
    lemma_fp2_is_add(fp2_mul_spec(d, t1), g0, m0, m1, w0, w1);
    lemma_fp2_is_mul(e1, z, m0 + w0, m1 + w1, z0, z1);
    lemma_fp2_is_neg(root, r0, r1);
    lemma_fp2_is_mul(fp2_neg_spec(root), g0, -r0, -r1, w0, w1);
    assert(cs[0] == fp2_mul_spec(fp2_neg_spec(root), g0));
    lemma_fp2_is_add(fp2_mul_spec(e1, z), cs[0], (m0 + w0) * z0 + 3 * ((m1 + w1) * z1), (m0 + w0) * z1 + (m1 + w1) * z0,
        (-r0) * w0 + 3 * ((-r1) * w1), (-r0) * w1 + (-r1) * w0);
    let x0 = (m0 + w0) * z0 + 3 * ((m1 + w1) * z1) + ((-r0) * w0 + 3 * ((-r1) * w1));
    let x1 = (m0 + w0) * z1 + (m1 + w1) * z0 + ((-r0) * w1 + (-r1) * w0);
    lemma_fp2_is_mul(d, fp2_eval(g, z), dd0, dd1, s0, s1);
    let y0 = dd0 * s0 + 3 * (dd1 * s1);
    let y1 = dd0 * s1 + dd1 * s0;
    lemma_twist_assoc(dd0, dd1, t0, tt1, z0, z1);
    lemma_twist_shift(w0, w1, z0, z1, r0, r1);
    lemma_mul_is_distributive_add_other_way(z0, m0, w0);
    lemma_mul_is_distributive_add_other_way(z1, m1, w1);
    lemma_mul_is_distributive_add_other_way(z1, m0, w0);
    lemma_mul_is_distributive_add_other_way(z0, m1, w1);
    lemma_mul_is_distributive_add(dd0, t0 * z0 + 3 * (tt1 * z1), w0);
    lemma_mul_is_distributive_add(dd1, t0 * z1 + tt1 * z0, w1);
    lemma_mul_is_distributive_add(dd0, t0 * z1 + tt1 * z0, w1);
    lemma_mul_is_distributive_add(dd1, t0 * z0 + 3 * (tt1 * z1), w0);
    assert((-r0) * w0 == -(r0 * w0) && (-r1) * w1 == -(r1 * w1) && (-r0) * w1 == -(r0 * w1) && (-r1) * w0 == -(r1
        * w0)) by (nonlinear_arith);
    assert(x0 == y0 && x1 == y1);
}

/// For the root-first reduction, the exact target is `H(P_hat)[0] == root`:
/// the hash point minus the root.
pub fn root_first_hash_residual(pos: &Poseidon1, root: Fp2, cofactor: &[Fp2; 7]) -> (r: Fp2)
    requires
        pos.wf(),
        fp2_ok(root),
        forall|j: int| 0 <= j < 7 ==> #[trigger] fp2_ok(cofactor@[j]),
    ensures
        r == fp2_sub_spec(
            hash_point_model(pos.rc_model(), pos.mds_model(), pos.r_f as int, pos.r_p as int, flat_spec(root_first_spec(root, cofactor@))),
            root,
        ),
{
    let coeffs = root_first_coeffs(root, cofactor);
    let p_hat = flatten_coeffs(&coeffs);
    let h = match hash_point(pos, &p_hat) {
        Some(h) => h,
        None => {
            return Fp2 { c0: 0, c1: 0 };
        },
    };
    h.sub(root)
}

/// Reading back a flat encoding of reduced coefficients gives them back.
pub proof fn lemma_flat_roundtrip(cs: Seq<Fp2>)
    requires
        cs.len() == 8,
        forall|j: int| 0 <= j < 8 ==> #[trigger] fp2_ok(cs[j]),
    ensures
        coeffs_spec(flat_spec(cs)) == cs,
{
    assert forall|j: int| 0 <= j < 8 implies #[trigger] coeffs_spec(flat_spec(cs))[j] == cs[j] by {
        assert((2 * j) % 2 == 0);
        assert((2 * j + 1) % 2 == 1);
        assert((2 * j) / 2 == j);
        assert((2 * j + 1) / 2 == j);
        assert(fp2_ok(cs[j]));
        lemma_small_mod(cs[j].c0 as nat, P as nat);
        lemma_small_mod(cs[j].c1 as nat, P as nat);
    }
    assert(coeffs_spec(flat_spec(cs)) =~= cs);
}

/// The zero element.
pub open spec fn fp2_is_zero(a: Fp2) -> bool {
    a.c0 == 0 && a.c1 == 0
}

/// The degree of a coefficient list whose top nonzero entry is at `d`.
proof fn lemma_fp2_degree_top(cs: Seq<Fp2>, d: int)
    requires
        0 <= d < cs.len(),
        !fp2_is_zero(cs[d]),
        forall|j: int| d < j < cs.len() ==> #[trigger] fp2_is_zero(cs[j]),
    ensures
        fp2_degree(cs) == d,
    decreases cs.len(),
{
    if d < cs.len() - 1 {
        assert(fp2_is_zero(cs[cs.len() - 1]));
        assert(cs.last() == cs[cs.len() - 1]);
        assert forall|j: int| d < j < cs.drop_last().len() implies #[trigger] fp2_is_zero(cs.drop_last()[j]) by {
            assert(cs.drop_last()[j] == cs[j]);
            assert(fp2_is_zero(cs[j]));
        }
        assert(cs.drop_last()[d] == cs[d]);
        lemma_fp2_degree_top(cs.drop_last(), d);
    }
}

/// With `G` nonzero and its top nonzero coefficient at `m`, `(z - root) G`
/// has degree `m + 1`.
proof fn lemma_root_first_degree(root: Fp2, g: Seq<Fp2>, m: int)
    requires
        fp2_ok(root),
        g.len() == 7,
        forall|k: int| 0 <= k < 7 ==> #[trigger] fp2_ok(g[k]),
        0 <= m < 7,
        !fp2_is_zero(g[m]),
        forall|k: int| m < k < 7 ==> #[trigger] fp2_is_zero(g[k]),
    ensures
        fp2_degree(root_first_spec(root, g)) == m + 1,
{
    let cs = root_first_spec(root, g);
    assert(fp2_ok(g[m]));
    lemma_small_mod(0, P as nat);
    if m + 1 < 7 {
        assert(fp2_is_zero(g[m + 1]));
        lemma_small_mod(g[m].c0 as nat, P as nat);
        lemma_small_mod(g[m].c1 as nat, P as nat);
        assert(cs[m + 1] == fp2_sub_spec(g[m], fp2_mul_spec(root, g[m + 1])));
        assert(fp2_mul_spec(root, g[m + 1]) == fp2_zero());
        assert(cs[m + 1] == g[m]);
    } else {
        assert(cs[7] == g[6]);
    }
    assert forall|j: int| m + 1 < j < 8 implies #[trigger] fp2_is_zero(cs[j]) by {
        if j < 7 {
            assert(fp2_is_zero(g[j - 1]));
            assert(fp2_is_zero(g[j]));
        } else {
            assert(fp2_is_zero(g[6]));
        }
    }
    lemma_fp2_degree_top(cs, m + 1);
}

/// The top nonzero coefficient of a nonzero `G`, searching down from `hi`.
proof fn lemma_top_nonzero(g: Seq<Fp2>, hi: int) -> (m: int)
    requires
        g.len() == 7,
        -1 <= hi <= 6,
        forall|k: int| hi < k < 7 ==> #[trigger] fp2_is_zero(g[k]),
        exists|k: int| 0 <= k < 7 && !#[trigger] fp2_is_zero(g[k]),
    ensures
        0 <= m < 7,
        !fp2_is_zero(g[m]),
        forall|k: int| m < k < 7 ==> #[trigger] fp2_is_zero(g[k]),
    decreases hi + 1,
{
    if hi < 0 {
        let k = choose|k: int| 0 <= k < 7 && !#[trigger] fp2_is_zero(g[k]);
        assert(fp2_is_zero(g[k]));
        0
    } else if !fp2_is_zero(g[hi]) {
        hi
    } else {
        assert forall|k: int| hi - 1 < k < 7 implies #[trigger] fp2_is_zero(g[k]) by {
            if k > hi {
                assert(fp2_is_zero(g[k]));
            }
        }
        lemma_top_nonzero(g, hi - 1)
    }
}

/// A root-first vector whose hash point is its root passes the zero test,
/// for every nonzero `G` (degree at most 6).
pub proof fn lemma_root_first_wins(pos: &Poseidon1, root: Fp2, g: Seq<Fp2>)
    requires
        fp2_ok(root),
        g.len() == 7,
        forall|k: int| 0 <= k < 7 ==> #[trigger] fp2_ok(g[k]),
        exists|k: int| 0 <= k < 7 && !#[trigger] fp2_is_zero(g[k]),
        fp2_sub_spec(
            hash_point_model(pos.rc_model(), pos.mds_model(), pos.r_f as int, pos.r_p as int, flat_spec(root_first_spec(root, g))),
            root,
        ) == fp2_zero(),
    ensures
        is_zero_residual(residual_spec(pos, flat_spec(root_first_spec(root, g)))),
{
    let p = modulus();
    let cs = root_first_spec(root, g);
    let p_hat = flat_spec(cs);
    let h = hash_point_model(pos.rc_model(), pos.mds_model(), pos.r_f as int, pos.r_p as int, p_hat);
    assert forall|j: int| 0 <= j < 8 implies #[trigger] fp2_ok(cs[j]) by {
    }
    lemma_flat_roundtrip(cs);
    let m = lemma_top_nonzero(g, 6);
    lemma_root_first_degree(root, g, m);
    assert(1 <= fp2_degree(cs) <= 7);
    // the hash point is the root
    let out = compression_model(pos.rc_model(), pos.mds_model(), pos.r_f as int, pos.r_p as int, p_hat.map_values(|v: u32| (v % P) as u32));
    assert(0 <= out[0] < p && 0 <= out[1] < p);
    lemma_sub_zero(h.c0 as int, root.c0 as int);
    lemma_sub_zero(h.c1 as int, root.c1 as int);
    assert(h == root);
    lemma_root_first_vanishes(root, g);
}

/// Two reduced values with a zero difference mod p are equal.
proof fn lemma_sub_zero(a: int, b: int)
    requires
        0 <= a < modulus(),
        0 <= b < modulus(),
        (a - b) % modulus() == 0,
    ensures
        a == b,
{
    if a > b {
        lemma_small_mod((a - b) as nat, modulus() as nat);
    } else if a < b {
        lemma_mod_add_multiples_vanish(a - b, modulus());
        lemma_small_mod((a - b + modulus()) as nat, modulus() as nat);
    }
}

// ---------------------------------------------------------------------------
// Random search for relaxed hits
// ---------------------------------------------------------------------------

/// A flat vector whose residual passes the relaxed test.
#[derive(Clone, Debug)]
pub struct RelaxedHit {
    pub p_hat: [u32; ZT_COEFF_LEN],
    pub attempt: usize,
    pub degree: isize,
    pub residual: Fp2,
}

/// The element two draws from the state `s` give, `c0` first.
#[verifier::opaque]
pub open spec fn fp2_draw(s: u64) -> Fp2 {
    Fp2 {
        c0: ((splitmix_mix(splitmix_advance(s)) as int) % (P as int)) as u32,
        c1: ((splitmix_mix(splitmix_advance(splitmix_advance(s))) as int) % (P as int)) as u32,
    }
}

/// The first nonzero element drawn from `s` with `tries` draws already
/// spent, and the state after it; one once the attempts run out.
pub open spec fn fp2_nonzero_draw(s: u64, tries: nat) -> (Fp2, u64)
    decreases NONZERO_ATTEMPTS as int - tries as int,
{
    if tries >= NONZERO_ATTEMPTS {
        (Fp2 { c0: 1, c1: 0 }, s)
    } else if !(fp2_draw(s).c0 == 0 && fp2_draw(s).c1 == 0) {
        (fp2_draw(s), splitmix_state(s, 2))
    } else {
        fp2_nonzero_draw(splitmix_state(s, 2), tries + 1)
    }
}

/// The state after `k` nonzero draws from `s`.
pub open spec fn nz_state(s: u64, k: nat) -> u64
    decreases k,
{
    if k == 0 {
        s
    } else {
        fp2_nonzero_draw(nz_state(s, (k - 1) as nat), 0).1
    }
}

/// The `k`-th nonzero element drawn from `s`, from zero.
pub open spec fn nz_elem(s: u64, k: nat) -> Fp2 {
    fp2_nonzero_draw(nz_state(s, k), 0).0
}

/// The degree of the random vector drawn from `s`.
pub open spec fn hat_degree(s: u64) -> int {
    1 + ((splitmix_mix(splitmix_advance(s)) as usize) % 7) as int
}

/// The coefficients of the random vector drawn from `s`: `hat_degree(s)`
/// elements, then a nonzero one, then zeros.
pub open spec fn hat_coeffs(s: u64) -> Seq<Fp2> {
    let s1 = splitmix_advance(s);
    let d = hat_degree(s);
    Seq::new(8, |j: int| if j < d {
        fp2_draw(splitmix_state(s1, (2 * j) as nat))
    } else if j == d {
        fp2_nonzero_draw(splitmix_state(s1, (2 * d) as nat), 0).0
    } else {
        fp2_zero()
    })
}

/// The state after drawing a random vector from `s`.
pub open spec fn hat_after(s: u64) -> u64 {
    fp2_nonzero_draw(splitmix_state(splitmix_advance(s), (2 * hat_degree(s)) as nat), 0).1
}

/// The state before attempt `k + 1` of the search from `seed`.
pub open spec fn search_state(seed: u64, k: nat) -> u64
    decreases k,
{
    if k == 0 {
        seed
    } else {
        hat_after(search_state(seed, (k - 1) as nat))
    }
}

/// The vector of attempt `a` (from one) of the search from `seed`.
pub open spec fn search_hat(seed: u64, a: nat) -> Seq<u32> {
    flat_spec(hat_coeffs(search_state(seed, (a - 1) as nat)))
}

/// Tries up to `max_attempts` random vectors of degree 1..=7 and returns the
/// first whose residual passes the relaxed test with `k` bits.
pub fn search_relaxed_random(pos: &Poseidon1, k: u32, max_attempts: usize, seed: u64) -> (r: Option<RelaxedHit>)
    requires
        pos.wf(),
    ensures
        r.is_some() ==> {
            let h = r.unwrap();
            &&& 1 <= h.attempt <= max_attempts
            &&& 1 <= h.degree <= 7
            &&& h.degree as int == fp2_degree(coeffs_spec(h.p_hat@))
            &&& is_relaxed_residual(residual_spec(pos, h.p_hat@), k)
            &&& residual_spec(pos, h.p_hat@) == Some(h.residual)
            &&& h.p_hat@ == search_hat(seed, h.attempt as nat)
            &&& forall|a: nat| 1 <= a < h.attempt ==> !is_relaxed_residual(residual_spec(pos, #[trigger] search_hat(seed, a)), k)
        },
        r is None ==> forall|a: nat| 1 <= a <= max_attempts ==> !is_relaxed_residual(residual_spec(pos, #[trigger] search_hat(seed, a)), k),
{
    let mut rng = SplitMix64::new(seed);
    let mut attempt: usize = 1;
    while attempt <= max_attempts
        invariant
            pos.wf(),
            1 <= attempt,
            rng.0 == search_state(seed, (attempt - 1) as nat),
            forall|a: nat| 1 <= a < attempt ==> !is_relaxed_residual(residual_spec(pos, #[trigger] search_hat(seed, a)), k),
        decreases max_attempts + 1 - attempt,
    {
        let (p_hat, deg) = random_poly_hat(&mut rng);
        proof {
            assert(p_hat@ == search_hat(seed, attempt as nat));
            assert(rng.0 == search_state(seed, attempt as nat));
        }
        if verify_zerotest_relaxed(pos, &p_hat, k) {
            let residual = match zerotest_residual(pos, &p_hat) {
                Some(x) => x,
                None => {
                    return None;
                },
            };
            return Some(RelaxedHit { p_hat, attempt, degree: deg, residual });
        }
        if attempt == usize::MAX {
            return None;
        }
        attempt += 1;
    }
    None
}

/// Number of draws before `fp2_nonzero` settles for one.
pub const NONZERO_ATTEMPTS: u64 = 4294967296;

/// A random vector of degree `1..=7` with reduced words.
#[verifier::rlimit(40)]
fn random_poly_hat(rng: &mut SplitMix64) -> (res: ([u32; ZT_COEFF_LEN], isize))
    ensures
        1 <= res.1 <= 7,
        res.1 as int == fp2_degree(coeffs_spec(res.0@)),
        res.1 as int == hat_degree(old(rng).0),
        res.0@ == flat_spec(hat_coeffs(old(rng).0)),
        final(rng).0 == hat_after(old(rng).0),
{
    let ghost s = rng.0;
    let deg = 1 + (rng.next() as usize % ZT_D);
    let ghost s1 = rng.0;
    let mut coeffs = [Fp2 { c0: 0, c1: 0 }; 8];
    let mut i: usize = 0;
    while i < deg
        invariant
            1 <= deg <= 7,
            deg as int == hat_degree(s),
            s1 == splitmix_advance(s),
            i <= deg,
            rng.0 == splitmix_state(s1, (2 * i) as nat),
            forall|j: int| 0 <= j < 8 ==> #[trigger] fp2_ok(coeffs@[j]),
            forall|j: int| deg <= j < 8 ==> #[trigger] coeffs@[j] == fp2_zero(),
            forall|j: int| 0 <= j < i ==> #[trigger] coeffs@[j] == hat_coeffs(s)[j],
        decreases deg - i,
    {
        let ghost before = rng.0;
        coeffs[i] = rng.fp2();
        proof {
            assert(splitmix_state(s1, (2 * i + 2) as nat) == splitmix_advance(splitmix_advance(before))) by {
                reveal_with_fuel(splitmix_state, 3);
            }
        }
        i += 1;
    }
    let ghost s2 = rng.0;
    coeffs[deg] = rng.fp2_nonzero();
    proof {
        assert(coeffs@ =~= hat_coeffs(s));
    }
    proof {
        let cs = coeffs@;
        assert forall|j: int| 0 <= j < 8 implies #[trigger] fp2_ok(cs[j]) by {
        }
        lemma_degree_top(cs, deg as int);
    }
    let p_hat = flatten_coeffs(&coeffs);
    proof {
        lemma_flat_roundtrip(coeffs@);
    }
    (p_hat, deg as isize)
}

/// The degree is the index of the last nonzero coefficient.
proof fn lemma_degree_top(cs: Seq<Fp2>, d: int)
    requires
        0 <= d < cs.len(),
        !(cs[d].c0 == 0 && cs[d].c1 == 0),
        forall|j: int| d < j < cs.len() ==> #[trigger] cs[j] == fp2_zero(),
    ensures
        fp2_degree(cs) == d,
    decreases cs.len(),
{
    if cs.len() - 1 > d {
        assert(cs.last() == fp2_zero());
        lemma_degree_top(cs.drop_last(), d);
    }
}

/// SplitMix64, as used by the random search.
pub(crate) struct SplitMix64(pub(crate) u64);

impl SplitMix64 {
    pub(crate) fn new(seed: u64) -> (r: Self)
        ensures
            r.0 == seed,
    {
        SplitMix64(seed)
    }

    pub(crate) fn next(&mut self) -> (r: u64)
        ensures
            final(self).0 == splitmix_advance(old(self).0),
            r == splitmix_mix(splitmix_advance(old(self).0)),
    {
        self.0 = self.0.wrapping_add(0x9E3779B97F4A7C15);
        let mut z = self.0;
        z = (z ^ (z >> 30)).wrapping_mul(0xBF58476D1CE4E5B9);
        z = (z ^ (z >> 27)).wrapping_mul(0x94D049BB133111EB);
        z ^ (z >> 31)
    }

    pub(crate) fn field(&mut self) -> (r: u32)
        ensures
            final(self).0 == splitmix_advance(old(self).0),
            r as int == (splitmix_mix(splitmix_advance(old(self).0)) as int) % (P as int),
            r < P,
    {
        (self.next() % PU64) as u32
    }

    /// Two draws: the first is `c0`, the second `c1`.
    pub(crate) fn fp2(&mut self) -> (r: Fp2)
        ensures
            final(self).0 == splitmix_advance(splitmix_advance(old(self).0)),
            r == fp2_draw(old(self).0),
            fp2_ok(r),
    {
        proof {
            reveal(fp2_draw);
        }
        let a = self.field();
        let b = self.field();
        proof {
            lemma_small_mod(a as nat, P as nat);
            lemma_small_mod(b as nat, P as nat);
        }
        Fp2::new(a, b)
    }

    /// A nonzero element; after `NONZERO_ATTEMPTS` zero draws, one.
    pub(crate) fn fp2_nonzero(&mut self) -> (r: Fp2)
        ensures
            fp2_ok(r),
            !(r.c0 == 0 && r.c1 == 0),
            (r, final(self).0) == fp2_nonzero_draw(old(self).0, 0),
    {
        let ghost s0 = self.0;
        let mut tries: u64 = 0;
        while tries < NONZERO_ATTEMPTS
            invariant
                tries <= NONZERO_ATTEMPTS,
                s0 == old(self).0,
                fp2_nonzero_draw(self.0, tries as nat) == fp2_nonzero_draw(s0, 0),
            decreases NONZERO_ATTEMPTS - tries,
        {
            let ghost before = self.0;
            let x = self.fp2();
            proof {
                assert(splitmix_state(before, 2) == splitmix_advance(splitmix_advance(before))) by {
                    reveal_with_fuel(splitmix_state, 3);
                }
            }
            if !x.is_zero() {
                proof {
                    assert(fp2_nonzero_draw(before, tries as nat) == (x, self.0));
                }
                return x;
            }
            tries += 1;
        }
        Fp2 { c0: 1, c1: 0 }
    }
}

/// Multiplication in Fp2 distributes over addition.
pub proof fn lemma_fp2_distributes(a: Fp2, b: Fp2, c: Fp2)
    requires
        fp2_ok(a),
        fp2_ok(b),
        fp2_ok(c),
    ensures
        fp2_mul_spec(a, fp2_add_spec(b, c)) == fp2_add_spec(fp2_mul_spec(a, b), fp2_mul_spec(a, c)),
{
    let p = modulus();
    let (a0, a1, b0, b1, c0, c1) = (a.c0 as int, a.c1 as int, b.c0 as int, b.c1 as int, c.c0 as int, c.c1 as int);
    let s0 = (b0 + c0) % p;
    let s1 = (b1 + c1) % p;
    // c0 component
    lemma_mul_mod_noop_right(a0, b0 + c0, p);
    lemma_mul_mod_noop_right(a1, b1 + c1, p);
    lemma_mul_mod_noop_right(3, a1 * s1, p);
    lemma_mul_mod_noop_right(3, a1 * (b1 + c1), p);
    lemma_add_mod_noop(a0 * s0, 3 * (a1 * s1), p);
    lemma_add_mod_noop(a0 * (b0 + c0), 3 * (a1 * (b1 + c1)), p);
    lemma_add_mod_noop(a0 * b0 + 3 * (a1 * b1), a0 * c0 + 3 * (a1 * c1), p);
    assert(a0 * (b0 + c0) + 3 * (a1 * (b1 + c1)) == (a0 * b0 + 3 * (a1 * b1)) + (a0 * c0 + 3 * (a1 * c1))) by (nonlinear_arith);
    // c1 component
    lemma_mul_mod_noop_right(a0, b1 + c1, p);
    lemma_mul_mod_noop_right(a1, b0 + c0, p);
    lemma_add_mod_noop(a0 * s1, a1 * s0, p);
    lemma_add_mod_noop(a0 * (b1 + c1), a1 * (b0 + c0), p);
    lemma_add_mod_noop(a0 * b1 + a1 * b0, a0 * c1 + a1 * c0, p);
    assert(a0 * (b1 + c1) + a1 * (b0 + c0) == (a0 * b1 + a1 * b0) + (a0 * c1 + a1 * c0)) by (nonlinear_arith);
}

/// With `k = 0` the relaxed test accepts every vector that has a residual.
pub proof fn lemma_relaxed_zero_bits(r: Option<Fp2>)
    requires
        r.is_some(),
    ensures
        is_relaxed_residual(r, 0),
{
    let x = r.unwrap();
    assert(x.c0 & 0u32 == 0 && x.c1 & 0u32 == 0) by (bit_vector);
}

/// A vector passing the exact test passes the relaxed test for every `k`.
pub proof fn lemma_zero_is_relaxed(r: Option<Fp2>, k: u32)
    requires
        is_zero_residual(r),
    ensures
        is_relaxed_residual(r, k),
{
    let m = low_mask_spec(k);
    assert(0u32 & m == 0) by (bit_vector);
}

} // verus!
