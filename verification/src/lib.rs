//! Verifier-exact KoalaBear / Poseidon1 core.
//!
//! The KoalaBear field (p = 2^31 - 2^24 + 1) in Montgomery form (R = 2^32),
//! the Grain LFSR round constants, the Cauchy and circulant MDS matrices, the
//! Poseidon1 permutation (t = 16, alpha = 3) with its compression-mode hash,
//! and the CICO-2 / partial-collision predicates.
use vstd::arithmetic::div_mod::*;
use vstd::arithmetic::mul::*;
use vstd::arithmetic::power::*;
use vstd::prelude::*;

pub mod amortized;
pub mod bipoly;
pub mod cico;
pub mod cofactor_family;
pub mod fast_resultant;
pub mod hgcd_chain;
pub mod field;
pub mod mds_family;
pub mod newton_interp;
pub mod ntt_spec;
pub mod poly;
pub mod poly_algebra;
pub mod poly_divides;
pub mod poly_gcd;
pub mod poly_eval;
pub mod poly_ring;
pub mod poly_spec;
pub mod poseidon_spec;
pub mod rootgrid;
pub mod samples;
pub mod shard;
pub mod rootvar;
pub mod zerotest;

use crate::field::{modulus, lemma_inverse};
use crate::poly::lemma_pow_step;
use crate::poseidon_spec::{poseidon_perm, add_rc, demont, dot, full_round, mds_layer, partial_round, reduce_words, rounds, sbox, bits_of, grain_attempts, grain_block, grain_nth, grain_run, grain_sample, grain_seed, grain_step};

verus! {

pub const P: u32 = 2130706433;

const PU64: u64 = 2130706433;

/// -P^{-1} mod 2^32.
const PPRIME: u32 = 2130706431;

/// R^{-1} mod P for the Montgomery radix R = 2^32.
pub open spec fn r_inv() -> int {
    1057030144
}

/// The Montgomery radix.
pub open spec fn radix() -> int {
    4294967296
}

/// Montgomery reduction as a value: `x * R^{-1} mod P`.
pub open spec fn redc(x: int) -> int {
    (x * r_inv()) % modulus()
}

/// The Montgomery form of `x`: `x * R mod P`.
pub open spec fn mont_form(x: int) -> int {
    (x * radix()) % modulus()
}

/// `R * R^{-1} == 1 (mod P)`.
pub proof fn lemma_radix_inverse()
    ensures
        (radix() * r_inv()) % modulus() == 1,
{
    assert(4294967296int * 1057030144int == 4539909899366170624int) by (nonlinear_arith);
    assert(4539909899366170624int % 2130706433int == 1) by (nonlinear_arith);
}

/// `redc` undoes `mont_form`.
pub proof fn lemma_redc_mont_form(x: int)
    ensures
        redc(mont_form(x)) == x % modulus(),
{
    let p = modulus();
    lemma_radix_inverse();
    lemma_mul_mod_noop_left(x * radix(), r_inv(), p);
    lemma_mul_is_associative(x, radix(), r_inv());
    lemma_mul_mod_noop_right(x, radix() * r_inv(), p);
}

/// `redc` is a ring homomorphism up to the radix: `redc(a*b*R^{-1}) == redc(a)*redc(b)`.
pub proof fn lemma_redc_mul(a: int, b: int)
    ensures
        redc(redc(a * b)) == (redc(a) * redc(b)) % modulus(),
{
    let p = modulus();
    let ri = r_inv();
    lemma_mul_mod_noop_left(a * b * ri, ri, p);
    lemma_mul_mod_noop(a * ri, b * ri, p);
    assert(a * b * ri * ri == (a * ri) * (b * ri)) by (nonlinear_arith);
    assert(redc(a * b) == (a * b * ri) % p);
}

/// `redc` is additive.
pub proof fn lemma_redc_add(a: int, b: int)
    ensures
        redc(a + b) == (redc(a) + redc(b)) % modulus(),
{
    let p = modulus();
    let ri = r_inv();
    lemma_mul_is_distributive_add_other_way(ri, a, b);
    lemma_add_mod_noop(a * ri, b * ri, p);
}

/// `redc` only depends on its argument mod P.
pub proof fn lemma_redc_mod(a: int)
    ensures
        redc(a % modulus()) == redc(a),
{
    lemma_mul_mod_noop_left(a, r_inv(), modulus());
}

/// The REDC identity: if `u * R == t + m * P` then `u == t * R^{-1} (mod P)`.
proof fn lemma_redc_step(t: int, m: int, u: int)
    requires
        u * radix() == t + m * modulus(),
    ensures
        u % modulus() == redc(t),
{
    let p = modulus();
    let r = radix();
    let ri = r_inv();
    lemma_radix_inverse();
    // u == u * (R * Rinv) (mod p)
    lemma_mul_mod_noop_right(u, r * ri, p);
    lemma_mul_basics(u);
    assert(u * (r * ri) == (t + m * p) * ri) by (nonlinear_arith)
        requires
            u * r == t + m * p,
    ;
    assert((t + m * p) * ri == t * ri + (m * ri) * p) by (nonlinear_arith);
    lemma_mod_multiples_vanish(m * ri, t * ri, p);
}

/// The low 32 bits of `t + m * P` vanish when `m = (t mod R) * PPRIME mod R`.
proof fn lemma_redc_low_bits(t: int, m: int)
    requires
        0 <= t,
        m == ((t % radix()) * (PPRIME as int)) % radix(),
    ensures
        (t + m * modulus()) % radix() == 0,
{
    let r = radix();
    let p = modulus();
    let pp = PPRIME as int;
    let x = t % r;
    assert(2130706431int * 2130706433int == 4539909899366170623int) by (nonlinear_arith);
    assert(4539909899366170623int % 4294967296int == 4294967295int) by (nonlinear_arith);
    lemma_mul_mod_noop_left(x * pp, p, r);
    lemma_mul_is_associative(x, pp, p);
    lemma_mul_mod_noop_right(x, pp * p, r);
    assert(x * (r - 1) == x * r + (-x)) by (nonlinear_arith);
    lemma_mod_multiples_vanish(x, -x, r);
    // (m * p) % r == (-x) % r
    lemma_add_mod_noop(t, m * p, r);
    lemma_mod_twice(t, r);
    lemma_add_mod_noop(x, -x, r);
}

/// Montgomery multiplication: REDC(a*b). The product must stay below `P * R`
/// (true whenever both inputs are below P, or one input is 1).
pub fn mont_mul(a: u32, b: u32) -> (r: u32)
    requires
        (a as int) * (b as int) < modulus() * radix(),
    ensures
        r < P,
        r == redc((a as int) * (b as int)),
{
    let t: u64 = (a as u64) * (b as u64);
    let m: u32 = (t as u32).wrapping_mul(PPRIME);
    proof {
        assert((t as u32) as int == (t as int) % 4294967296) by (bit_vector);
        assert(t < 9151314447111815168);
        assert((m as int) * 2130706433 < 9151314447111815168) by (nonlinear_arith)
            requires
                m < 4294967296,
        ;
        lemma_redc_low_bits(t as int, m as int);
    }
    let s: u64 = t + (m as u64) * PU64;
    proof {
        assert((s >> 32u64) == s / 4294967296u64) by (bit_vector);
        lemma_fundamental_div_mod(s as int, 4294967296);
    }
    let u: u64 = s >> 32;
    proof {
        assert(u * 4294967296 == s);
        assert(u < 2 * 2130706433) by (nonlinear_arith)
            requires
                u * 4294967296 == s,
                s < 18302628894223630336int,
        ;
        lemma_redc_step(t as int, m as int, u as int);
    }
    let u = u as u32;
    if u >= P {
        proof {
            lemma_mod_sub_multiples_vanish(u as int, modulus());
            lemma_small_mod((u - P) as nat, P as nat);
        }
        u - P
    } else {
        proof {
            lemma_small_mod(u as nat, P as nat);
        }
        u
    }
}

/// Field addition of two reduced values.
pub fn mont_add(a: u32, b: u32) -> (r: u32)
    requires
        a < P,
        b < P,
    ensures
        r < P,
        r as int == ((a as int) + (b as int)) % modulus(),
{
    let s = a + b;
    if s >= P {
        proof {
            lemma_mod_sub_multiples_vanish(s as int, modulus());
            lemma_small_mod((s - P) as nat, P as nat);
        }
        s - P
    } else {
        proof {
            lemma_small_mod(s as nat, P as nat);
        }
        s
    }
}

/// Field subtraction of two reduced values.
pub fn mont_sub(a: u32, b: u32) -> (r: u32)
    requires
        a < P,
        b < P,
    ensures
        r < P,
        r as int == ((a as int) - (b as int)) % modulus(),
{
    if a >= b {
        proof {
            lemma_small_mod((a - b) as nat, P as nat);
        }
        a - b
    } else {
        proof {
            lemma_mod_add_multiples_vanish((a as int) - (b as int), modulus());
            lemma_small_mod((a + P - b) as nat, P as nat);
        }
        a + P - b
    }
}

/// Montgomery cube: REDC(REDC(x*x)*x).
pub fn mont_cube(x: u32) -> (r: u32)
    requires
        x < P,
    ensures
        r < P,
        redc(r as int) == (redc(x as int) * redc(x as int) * redc(x as int)) % modulus(),
{
    proof {
        lemma_mul_upper_bound(x as int, P as int, x as int, P as int);
    }
    let sq = mont_mul(x, x);
    proof {
        lemma_mul_upper_bound(sq as int, P as int, x as int, P as int);
    }
    let r = mont_mul(sq, x);
    proof {
        let p = modulus();
        let xv = redc(x as int);
        lemma_redc_mul(x as int, x as int);
        lemma_redc_mul(sq as int, x as int);
        // redc(r) = redc(sq) * xv % p = (xv*xv % p) * xv % p
        lemma_mul_mod_noop_left(xv * xv, xv, p);
    }
    r
}

/// `a -> a*R mod P` (Montgomery form); `a` is reduced mod P first.
pub fn to_mont(a: u32) -> (r: u32)
    ensures
        r < P,
        r as int == mont_form(a as int),
{
    let x: u64 = (a as u64) % PU64;
    proof {
        assert(x < 2130706433u64);
        assert(x << 32u64 == x * 4294967296u64) by (bit_vector)
            requires
                x < 2130706433u64,
        ;
        lemma_mul_mod_noop_left(a as int, radix(), modulus());
    }
    ((x << 32) % PU64) as u32
}

/// `a * R^{-1} mod P` (back to normal form).
pub fn from_mont(a: u32) -> (r: u32)
    ensures
        r < P,
        r as int == redc(a as int),
{
    proof {
        lemma_mul_basics(a as int);
    }
    mont_mul(a, 1)
}

/// Normal-domain modular exponentiation.
fn modpow(a: u64, e: u64) -> (r: u32)
    ensures
        r < P,
        r as int == pow(a as int, e as nat) % modulus(),
{
    let ghost a0 = a;
    let ghost e0 = e;
    let mut a = a % PU64;
    let mut e = e;
    let mut r: u64 = 1;
    proof {
        lemma_pow_mod_noop(a0 as int, e0 as nat, modulus());
        lemma_mul_basics(pow(a as int, e as nat));
    }
    while e > 0
        invariant
            a < PU64,
            r < PU64,
            (r * pow(a as int, e as nat)) % modulus() == pow(a0 as int, e0 as nat) % modulus(),
        decreases e,
    {
        proof {
            lemma_pow_step(r as int, a as int, e as nat);
            lemma_mul_upper_bound(r as int, P as int, a as int, P as int);
            lemma_mul_upper_bound(a as int, P as int, a as int, P as int);
        }
        assert((e & 1 == 1) == (e % 2 == 1)) by (bit_vector);
        if e & 1 == 1 {
            r = r * a % PU64;
        }
        a = a * a % PU64;
        assert(e >> 1 == e / 2) by (bit_vector);
        e = e >> 1;
    }
    proof {
        lemma_pow0(a as int);
        lemma_small_mod(r as nat, P as nat);
    }
    r as u32
}

/// Modular inverse in the normal domain (P is prime): `a^(P-2)`.
pub(crate) fn modinv(a: u32) -> (r: u32)
    ensures
        r < P,
        r as int == pow(a as int, (modulus() - 2) as nat) % modulus(),
        (a as int) % modulus() != 0 ==> ((a as int) * (r as int)) % modulus() == 1,
{
    let r = modpow(a as u64, (P - 2) as u64);
    proof {
        if (a as int) % modulus() != 0 {
            lemma_inverse(a as int);
            lemma_mul_mod_noop_right(a as int, pow(a as int, (modulus() - 2) as nat), modulus());
        }
    }
    r
}

// ---------------------------------------------------------------------------
// Grain LFSR round constants (eprint 2019/458)
// ---------------------------------------------------------------------------

/// Bit length of P.
const P_BITS: u32 = 31;

/// The Grain LFSR that derives the round constants.
pub struct GrainLfsr {
    state: [u8; 80],
    prime_bit_len: u32,
}

impl GrainLfsr {
    /// The 80 state bits.
    pub closed spec fn bits(&self) -> Seq<u8> {
        self.state@
    }

    /// Bits per sampled block.
    pub closed spec fn block_len(&self) -> u32 {
        self.prime_bit_len
    }

    pub fn new(prime_bit_len: u32, alpha: u32, t: u32, r_f: u32, r_p: u32) -> (g: Self)
        ensures
            g.bits() == grain_run(grain_seed(prime_bit_len, alpha, t, r_f, r_p), 160),
            g.block_len() == prime_bit_len,
    {
        let mut state = [0u8; 80];
        state[0] = 1;  // field type "10" = prime field
        state[1] = 0;
        state[2] = 0;  // S-box type (alpha != -1)
        set_bits(&mut state, 3, alpha, 5);
        set_bits(&mut state, 8, prime_bit_len, 10);
        set_bits(&mut state, 18, t, 10);
        set_bits(&mut state, 28, r_f, 10);
        set_bits(&mut state, 38, r_p, 10);
        let mut i: usize = 48;
        while i < 80
            invariant
                48 <= i <= 80,
                forall|j: int| 0 <= j < 48 ==> #[trigger] state@[j] == grain_seed(prime_bit_len, alpha, t, r_f, r_p)[j],
                forall|j: int| 48 <= j < i ==> #[trigger] state@[j] == 1u8,
            decreases 80 - i,
        {
            state[i] = 1;
            i += 1;
        }
        let ghost seed = grain_seed(prime_bit_len, alpha, t, r_f, r_p);
        assert(state@ =~= seed);
        let mut g = GrainLfsr { state, prime_bit_len };
        let mut k: usize = 0;
        while k < 160
            invariant
                k <= 160,
                g.state@ == grain_run(seed, k as nat),
                g.prime_bit_len == prime_bit_len,
            decreases 160 - k,
        {
            g.clock();
            k += 1;
        }
        g
    }

    fn clock(&mut self) -> (out: u8)
        ensures
            final(self).state@ == grain_step(old(self).state@),
            final(self).prime_bit_len == old(self).prime_bit_len,
            out == old(self).state@[0],
    {
        let new = self.state[0] ^ self.state[13] ^ self.state[23] ^ self.state[38] ^ self.state[51]
            ^ self.state[62];
        let out = self.state[0];
        let mut i: usize = 0;
        while i < 79
            invariant
                i <= 79,
                self.prime_bit_len == old(self).prime_bit_len,
                forall|j: int| 0 <= j < i ==> #[trigger] self.state@[j] == old(self).state@[j + 1],
                forall|j: int| i <= j < 80 ==> #[trigger] self.state@[j] == old(self).state@[j],
            decreases 79 - i,
        {
            self.state[i] = self.state[i + 1];
            i += 1;
        }
        self.state[79] = new;
        assert(self.state@ =~= grain_step(old(self).state@));
        out
    }

    /// Next field element by rejection sampling (normal domain).
    pub fn field_element(&mut self) -> (r: u32)
        ensures
            (r, final(self).bits()) == grain_sample(old(self).bits(), old(self).block_len() as nat, grain_attempts()),
            final(self).block_len() == old(self).block_len(),
            r < P,
    {
        let ghost s0 = self.state@;
        let ghost n = self.prime_bit_len as nat;
        let mut attempts: u64 = 0;
        loop
            invariant
                attempts < 4294967296,
                self.prime_bit_len == n,
                n == old(self).prime_bit_len,
                s0 == old(self).state@,
                grain_sample(self.state@, n, (grain_attempts() - attempts) as nat) == grain_sample(s0, n, grain_attempts()),
            decreases 4294967296 - attempts,
        {
            let ghost s1 = self.state@;
            let mut value: u64 = 0;
            let mut i: u32 = 0;
            while i < self.prime_bit_len
                invariant
                    i <= n,
                    self.prime_bit_len == n,
                    value == grain_block(s1, i as nat),
                    self.state@ == grain_run(s1, i as nat),
                decreases n - i,
            {
                let b = self.clock();
                value = (value << 1) | (b as u64);
                i += 1;
            }
            if value < PU64 {
                return value as u32;
            }
            attempts += 1;
            if attempts == 4294967296 {
                return (value % PU64) as u32;
            }
        }
    }
}

/// Writes the low `n` bits of `value`, most significant first, at `off`.
fn set_bits(state: &mut [u8; 80], off: usize, value: u32, n: u32)
    requires
        n <= 32,
        off + n <= 80,
    ensures
        forall|j: int| 0 <= j < 80 ==> #[trigger] final(state)@[j] == if off <= j < off + n {
            bits_of(value, n as nat)[j - off]
        } else {
            old(state)@[j]
        },
{
    let mut i: u32 = 0;
    while i < n
        invariant
            i <= n <= 32,
            off + n <= 80,
            forall|j: int| 0 <= j < 80 ==> #[trigger] state@[j] == if off <= j < off + i {
                bits_of(value, n as nat)[j - off]
            } else {
                old(state)@[j]
            },
        decreases n - i,
    {
        state[off + i as usize] = ((value >> (n - 1 - i)) & 1) as u8;
        i += 1;
    }
}

/// The round constants of a `(r_f + r_p)`-round, width-`t` instance, flat.
pub open spec fn grain_constants_spec(alpha: u32, t: u32, r_f: u32, r_p: u32, count: nat) -> Seq<u32> {
    let s = grain_run(grain_seed(31, alpha, t, r_f, r_p), 160);
    Seq::new(count, |k: int| grain_nth(s, 31, k as nat).0)
}

/// Round constant `k` is the value of draw `k` (from 0) of a fresh Grain
/// generator: given the states and values of successive `field_element`
/// calls on `GrainLfsr::new(31, alpha, t, r_f, r_p)`, as their contracts
/// state them, the first `count` values are the constants.
pub proof fn law_grain_constants_are_successive_draws(
    alpha: u32,
    t: u32,
    r_f: u32,
    r_p: u32,
    count: nat,
    states: Seq<Seq<u8>>,
    vals: Seq<u32>,
)
    requires
        states.len() == count + 1,
        vals.len() == count,
        states[0] == grain_run(grain_seed(31, alpha, t, r_f, r_p), 160),
        forall|k: int| 0 <= k < count ==> #[trigger] grain_sample(states[k], 31, grain_attempts()) == (vals[k], states[k + 1]),
    ensures
        grain_constants_spec(alpha, t, r_f, r_p, count) == vals,
{
    let s0 = states[0];
    assert forall|k: int| 0 <= k < count implies #[trigger] grain_nth(s0, 31, k as nat) == (vals[k], states[k + 1]) by {
        lemma_grain_draws(s0, states, vals, count, k as nat);
    }
    assert(grain_constants_spec(alpha, t, r_f, r_p, count) =~= vals);
}

/// The permutation with initial linear layer is the plain permutation of
/// the state after one linear layer: for words `v` that hold the linear layer
/// applied to `w`, both permutations agree.
pub proof fn law_linear_layer_then_permutation(pos: Poseidon1, w: Seq<u32>, v: Seq<u32>)
    requires
        pos.wf(),
        w.len() == 16,
        v.len() == 16,
        forall|i: int| 0 <= i < 16 ==> (#[trigger] v[i]) as int == mds_layer(pos.mds_model(), reduce_words(w))[i],
    ensures
        pos.perm_spec(reduce_words(w), true) == pos.perm_spec(reduce_words(v), false),
{
    let s = mds_layer(pos.mds_model(), reduce_words(w));
    assert forall|i: int| 0 <= i < 16 implies #[trigger] reduce_words(v)[i] == s[i] by {
        vstd::arithmetic::div_mod::lemma_mod_twice(dot(pos.mds_model()[i], reduce_words(w), 16), field::modulus());
    }
    assert(reduce_words(v) =~= s);
}

proof fn lemma_grain_draws(s0: Seq<u8>, states: Seq<Seq<u8>>, vals: Seq<u32>, count: nat, k: nat)
    requires
        states.len() == count + 1,
        vals.len() == count,
        states[0] == s0,
        forall|j: int| 0 <= j < count ==> #[trigger] grain_sample(states[j], 31, grain_attempts()) == (vals[j], states[j + 1]),
        k < count,
    ensures
        grain_nth(s0, 31, k) == (vals[k as int], states[k as int + 1]),
    decreases k,
{
    if k == 0 {
        assert(grain_sample(states[0], 31, grain_attempts()) == (vals[0], states[1]));
    } else {
        lemma_grain_draws(s0, states, vals, count, (k - 1) as nat);
        assert(grain_sample(states[k as int], 31, grain_attempts()) == (vals[k as int], states[k as int + 1]));
    }
}

/// Flat `(r_f + r_p) * t` Grain round constants, normal domain.
pub fn grain_round_constants(alpha: u32, t: u32, r_f: u32, r_p: u32) -> (r: Vec<u32>)
    requires
        r_f + r_p <= u32::MAX,
        (r_f + r_p) * t <= u32::MAX,
    ensures
        r@ == grain_constants_spec(alpha, t, r_f, r_p, ((r_f + r_p) * t) as nat),
        r.len() == (r_f + r_p) * t,
        forall|k: int| 0 <= k < r.len() ==> #[trigger] r[k] < P,
{
    let prime_bit_len = P_BITS;
    let mut lfsr = GrainLfsr::new(prime_bit_len, alpha, t, r_f, r_p);
    proof {
        assert((r_f + r_p) * t <= u32::MAX);
    }
    let n = ((r_f + r_p) * t) as usize;
    let ghost s = grain_run(grain_seed(31, alpha, t, r_f, r_p), 160);
    let mut out: Vec<u32> = Vec::new();
    let mut k: usize = 0;
    while k < n
        invariant
            k <= n,
            n == (r_f + r_p) * t,
            lfsr.block_len() == 31,
            out.len() == k,
            forall|j: int| 0 <= j < k ==> #[trigger] out[j] == grain_nth(s, 31, j as nat).0,
            forall|j: int| 0 <= j < k ==> #[trigger] out[j] < P,
            k == 0 ==> lfsr.bits() == s,
            k > 0 ==> lfsr.bits() == grain_nth(s, 31, (k - 1) as nat).1,
        decreases n - k,
    {
        let v = lfsr.field_element();
        out.push(v);
        k += 1;
    }
    assert(out@ =~= grain_constants_spec(alpha, t, r_f, r_p, n as nat));
    out
}

// ---------------------------------------------------------------------------
// MDS matrices
// ---------------------------------------------------------------------------

/// The Cauchy matrix entry `(i - t - j)^(-1) mod P`.
pub open spec fn cauchy_entry(t: int, i: int, j: int) -> int {
    pow((i - t - j) % modulus(), (modulus() - 2) as nat) % modulus()
}

/// Canonical MDS: `M[i][j] = (i - t - j)^{-1} mod p`, Toeplitz in `i - j`.
pub fn cauchy_mds(t: usize) -> (m: Vec<Vec<u32>>)
    requires
        t <= 1073741824,
    ensures
        m.len() == t,
        forall|i: int| 0 <= i < t ==> #[trigger] m[i].len() == t,
        forall|i: int, j: int| 0 <= i < t && 0 <= j < t ==> #[trigger] m[i][j] as int == cauchy_entry(t as int, i, j),
{
    let mut m: Vec<Vec<u32>> = Vec::new();
    let mut i: usize = 0;
    while i < t
        invariant
            i <= t <= 1073741824,
            m.len() == i,
            forall|a: int| 0 <= a < i ==> #[trigger] m[a].len() == t,
            forall|a: int, b: int| 0 <= a < i && 0 <= b < t ==> #[trigger] m[a][b] as int == cauchy_entry(t as int, a, b),
        decreases t - i,
    {
        let mut row: Vec<u32> = Vec::new();
        let mut j: usize = 0;
        while j < t
            invariant
                i < t <= 1073741824,
                j <= t,
                row.len() == j,
                forall|b: int| 0 <= b < j ==> #[trigger] row[b] as int == cauchy_entry(t as int, i as int, b),
            decreases t - j,
        {
            // (i - t - j) is negative: reduce its negation, then negate mod P.
            let neg = ((t + j - i) as u64) % PU64;
            let diff: u32 = if neg == 0 { 0 } else { (PU64 - neg) as u32 };
            proof {
                let x = (i as int) - (t as int) - (j as int);
                lemma_mod_neg_unit(x, modulus(), neg as int);
            }
            row.push(modinv(diff));
            j += 1;
        }
        m.push(row);
        i += 1;
    }
    m
}

/// `(-y) mod m` from `y mod m`.
proof fn lemma_mod_neg_unit(x: int, m: int, r: int)
    requires
        m > 0,
        r == (-x) % m,
    ensures
        (if r == 0 { 0 } else { m - r }) == x % m,
{
    lemma_fundamental_div_mod(-x, m);
    let q = (-x) / m;
    if r == 0 {
        lemma_mod_multiples_basic(-q, m);
        assert(x == (-q) * m) by (nonlinear_arith)
            requires
                -x == m * q + 0;
    } else {
        assert(x == (-q - 1) * m + (m - r)) by (nonlinear_arith)
            requires
                -x == m * q + r;
        lemma_mod_multiples_vanish(-q - 1, m - r, m);
        lemma_small_mod((m - r) as nat, m as nat);
    }
}

/// Circulant matrix: `M[i][j] = first_row[(j - i) mod t] mod P`.
pub fn circulant_mds(first_row: &[u32]) -> (m: Vec<Vec<u32>>)
    requires
        first_row.len() <= 1073741824,
    ensures
        m.len() == first_row.len(),
        forall|i: int| 0 <= i < first_row.len() ==> #[trigger] m[i].len() == first_row.len(),
        forall|i: int, j: int|
            0 <= i < first_row.len() && 0 <= j < first_row.len() ==> #[trigger] m[i][j] == first_row[(j + first_row.len() - i) % (first_row.len() as int)] % P,
{
    let t = first_row.len();
    let mut m: Vec<Vec<u32>> = Vec::new();
    let mut i: usize = 0;
    while i < t
        invariant
            t == first_row.len() <= 1073741824,
            i <= t,
            m.len() == i,
            forall|a: int| 0 <= a < i ==> #[trigger] m[a].len() == t,
            forall|a: int, b: int| 0 <= a < i && 0 <= b < t ==> #[trigger] m[a][b] == first_row[(b + t - a) % (t as int)] % P,
        decreases t - i,
    {
        let mut row: Vec<u32> = Vec::new();
        let mut j: usize = 0;
        while j < t
            invariant
                t == first_row.len() <= 1073741824,
                i < t,
                j <= t,
                row.len() == j,
                forall|b: int| 0 <= b < j ==> #[trigger] row[b] == first_row[(b + t - i) % (t as int)] % P,
            decreases t - j,
        {
            proof {
                lemma_small_mod(i as nat, t as nat);
            }
            row.push(first_row[(j + t - i % t) % t] % P);
            j += 1;
        }
        m.push(row);
        i += 1;
    }
    m
}

// ---------------------------------------------------------------------------
// Poseidon1 permutation and compression hash
// ---------------------------------------------------------------------------

/// The Poseidon1 instance: width 16, S-box `x^3`.
pub struct Poseidon1 {
    pub t: usize,
    pub r_f: usize,
    pub r_p: usize,
    pub alpha: u32,
    /// Montgomery-domain round constants, 16 per round.
    pub rc: Vec<[u32; 16]>,
    /// Montgomery-domain MDS rows.
    pub mds: Vec<[u32; 16]>,
    /// Normal-domain round constants.
    pub rc_n: Vec<Vec<u32>>,
    /// Normal-domain MDS rows.
    pub mds_n: Vec<Vec<u32>>,
}

impl Poseidon1 {
    /// The round constants, one row per round.
    pub open spec fn rc_model(&self) -> Seq<Seq<u32>> {
        self.rc_n@.map_values(|v: Vec<u32>| v@)
    }

    /// The MDS matrix, by rows.
    pub open spec fn mds_model(&self) -> Seq<Seq<u32>> {
        self.mds_n@.map_values(|v: Vec<u32>| v@)
    }

    /// The permutation this instance computes, on field elements.
    pub open spec fn perm_spec(&self, s: Seq<int>, initial_linear: bool) -> Seq<int> {
        poseidon_perm(self.rc_model(), self.mds_model(), self.r_f as int, self.r_p as int, s, initial_linear)
    }

    /// Width 16, one reduced row of constants per round, a reduced 16x16
    /// matrix, and Montgomery copies that match.
    pub open spec fn wf(&self) -> bool {
        &&& self.t == 16
        &&& self.rc@.len() == self.r_f + self.r_p
        &&& self.rc_n@.len() == self.r_f + self.r_p
        &&& self.mds@.len() == 16
        &&& self.mds_n@.len() == 16
        &&& forall|r: int| 0 <= r < self.rc_n@.len() ==> #[trigger] self.rc_n@[r]@.len() == 16
        &&& forall|i: int| 0 <= i < 16 ==> #[trigger] self.mds_n@[i]@.len() == 16
        &&& forall|r: int, i: int|
            0 <= r < self.rc_n@.len() && 0 <= i < 16 ==> #[trigger] self.rc_n@[r]@[i] < P && self.rc@[r]@[i] as int
                == mont_form(self.rc_n@[r]@[i] as int)
        &&& forall|r: int, i: int|
            0 <= r < 16 && 0 <= i < 16 ==> #[trigger] self.mds_n@[r]@[i] < P && self.mds@[r]@[i] as int
                == mont_form(self.mds_n@[r]@[i] as int)
    }

    /// Canonical bounty instance: Cauchy MDS + Grain constants.
    pub fn new_canonical(alpha: u32, t: usize, r_f: usize, r_p: usize) -> (pos: Self)
        requires
            t == 16,
            (r_f + r_p) * 16 <= u32::MAX,
        ensures
            pos.wf(),
            pos.t == 16,
            pos.r_f == r_f,
            pos.r_p == r_p,
            pos.alpha == alpha,
            forall|r: int, i: int|
                0 <= r < r_f + r_p && 0 <= i < 16 ==> #[trigger] pos.rc_model()[r][i]
                    == grain_constants_spec(alpha, 16, r_f as u32, r_p as u32, ((r_f + r_p) * 16) as nat)[r * 16 + i],
            forall|i: int, j: int| 0 <= i < 16 && 0 <= j < 16 ==> #[trigger] pos.mds_model()[i][j] as int == cauchy_entry(16, i, j),
            pos.rc_model() == canonical_rcs(alpha, r_f as nat, r_p as nat),
            pos.mds_model() == canonical_mds(),
    {
        let flat = grain_round_constants(alpha, t as u32, r_f as u32, r_p as u32);
        let mds = cauchy_mds(t);
        let pos = Self::from_parts(alpha, t, r_f, r_p, &flat, &mds);
        proof {
            assert forall|r: int, i: int| 0 <= r < r_f + r_p && 0 <= i < 16 implies #[trigger] pos.rc_model()[r][i]
                == grain_constants_spec(alpha, 16, r_f as u32, r_p as u32, ((r_f + r_p) * 16) as nat)[r * 16 + i] by {
                assert(0 <= r * 16 + i < (r_f + r_p) * 16) by (nonlinear_arith)
                    requires
                        0 <= r < r_f + r_p,
                        0 <= i < 16;
                lemma_small_mod(flat[r * 16 + i] as nat, P as nat);
            }
            assert forall|i: int, j: int| 0 <= i < 16 && 0 <= j < 16 implies #[trigger] pos.mds_model()[i][j] as int == cauchy_entry(16, i, j) by {
                lemma_small_mod(mds[i][j] as nat, P as nat);
            }
            assert forall|r: int| 0 <= r < r_f + r_p implies #[trigger] pos.rc_model()[r] =~= canonical_rcs(alpha, r_f as nat, r_p as nat)[r] by {
                assert forall|i: int| 0 <= i < 16 implies #[trigger] pos.rc_model()[r][i] == canonical_rcs(alpha, r_f as nat, r_p as nat)[r][i] by {
                    assert(0 <= r * 16 + i < (r_f + r_p) * 16) by (nonlinear_arith)
                        requires
                            0 <= r < r_f + r_p,
                            0 <= i < 16;
                    lemma_small_mod(flat[r * 16 + i] as nat, P as nat);
                }
            }
            assert(pos.rc_model() =~= canonical_rcs(alpha, r_f as nat, r_p as nat));
            assert forall|i: int| 0 <= i < 16 implies #[trigger] pos.mds_model()[i] =~= canonical_mds()[i] by {
                assert forall|j: int| 0 <= j < 16 implies #[trigger] pos.mds_model()[i][j] == canonical_mds()[i][j] by {
                    lemma_small_mod(mds[i][j] as nat, P as nat);
                }
            }
            assert(pos.mds_model() =~= canonical_mds());
        }
        pos
    }

    /// Build from explicit normal-domain round constants and MDS.
    pub fn from_parts(
        alpha: u32,
        t: usize,
        r_f: usize,
        r_p: usize,
        flat_rc: &[u32],
        mds_normal: &[Vec<u32>],
    ) -> (pos: Self)
        requires
            t == 16,
            (r_f + r_p) * 16 <= usize::MAX,
            flat_rc.len() == (r_f + r_p) * 16,
            mds_normal.len() >= 16,
            forall|i: int| 0 <= i < 16 ==> #[trigger] mds_normal[i].len() >= 16,
        ensures
            pos.wf(),
            pos.t == 16,
            pos.r_f == r_f,
            pos.r_p == r_p,
            pos.alpha == alpha,
            forall|r: int, i: int|
                0 <= r < r_f + r_p && 0 <= i < 16 ==> #[trigger] pos.rc_model()[r][i] == flat_rc[r * 16 + i] % P,
            forall|i: int, j: int| 0 <= i < 16 && 0 <= j < 16 ==> #[trigger] pos.mds_model()[i][j] == mds_normal[i][j] % P,
    {
        let total = r_f + r_p;
        let mut rc: Vec<[u32; 16]> = Vec::new();
        let mut rc_n: Vec<Vec<u32>> = Vec::new();
        let mut r: usize = 0;
        while r < total
            invariant
                t == 16,
                total == r_f + r_p,
                total * 16 <= usize::MAX,
                flat_rc.len() == total * 16,
                r <= total,
                rc.len() == r,
                rc_n.len() == r,
                forall|a: int| 0 <= a < r ==> #[trigger] rc_n[a]@.len() == 16,
                forall|a: int, i: int|
                    0 <= a < r && 0 <= i < 16 ==> #[trigger] rc_n[a]@[i] == flat_rc[a * 16 + i] % P && rc[a]@[i] as int
                        == mont_form(rc_n[a]@[i] as int),
            decreases total - r,
        {
            let mut row = [0u32; 16];
            let mut row_n: Vec<u32> = vec![0u32; t];
            let mut i: usize = 0;
            while i < 16
                invariant
                    t == 16,
                    r < total,
                    total * 16 <= usize::MAX,
                    flat_rc.len() == total * 16,
                    i <= 16,
                    row_n.len() == 16,
                    forall|b: int| 0 <= b < i ==> #[trigger] row_n@[b] == flat_rc[r * 16 + b] % P && row@[b] as int
                        == mont_form(row_n@[b] as int),
                decreases 16 - i,
            {
                proof {
                    assert(r * 16 + i < total * 16) by (nonlinear_arith)
                        requires
                            r < total,
                            i < 16;
                }
                let v = flat_rc[r * 16 + i];
                row[i] = to_mont(v);
                row_n.set(i, v % P);
                proof {
                    lemma_mul_mod_noop_left(v as int, radix(), modulus());
                }
                i += 1;
            }
            rc.push(row);
            rc_n.push(row_n);
            r += 1;
        }
        let mut mds: Vec<[u32; 16]> = Vec::new();
        let mut mds_n: Vec<Vec<u32>> = Vec::new();
        let mut i: usize = 0;
        while i < 16
            invariant
                t == 16,
                mds_normal.len() >= 16,
                forall|a: int| 0 <= a < 16 ==> #[trigger] mds_normal[a].len() >= 16,
                i <= 16,
                mds.len() == i,
                mds_n.len() == i,
                forall|a: int| 0 <= a < i ==> #[trigger] mds_n[a]@.len() == 16,
                forall|a: int, b: int|
                    0 <= a < i && 0 <= b < 16 ==> #[trigger] mds_n[a]@[b] == mds_normal[a][b] % P && mds[a]@[b] as int
                        == mont_form(mds_n[a]@[b] as int),
            decreases 16 - i,
        {
            let mut row = [0u32; 16];
            let mut row_n: Vec<u32> = vec![0u32; t];
            let mut j: usize = 0;
            while j < 16
                invariant
                    t == 16,
                    i < 16,
                    mds_normal.len() >= 16,
                    forall|a: int| 0 <= a < 16 ==> #[trigger] mds_normal[a].len() >= 16,
                    j <= 16,
                    row_n.len() == 16,
                    forall|b: int| 0 <= b < j ==> #[trigger] row_n@[b] == mds_normal[i as int][b] % P && row@[b] as int
                        == mont_form(row_n@[b] as int),
                decreases 16 - j,
            {
                assert(mds_normal[i as int].len() >= 16);
                let v = mds_normal[i][j];
                row[j] = to_mont(v);
                row_n.set(j, v % P);
                proof {
                    lemma_mul_mod_noop_left(v as int, radix(), modulus());
                }
                j += 1;
            }
            mds.push(row);
            mds_n.push(row_n);
            i += 1;
        }
        Poseidon1 { t, r_f, r_p, alpha, rc, mds, rc_n, mds_n }
    }
}

/// One accumulation step of a Montgomery dot product.
proof fn lemma_mont_dot_step(acc: int, mm: int, m_mont: int, m_n: int, x: int, d: int, dj: int)
    requires
        redc(acc) == d % modulus(),
        mm == redc(m_mont * x),
        m_mont == mont_form(m_n),
        0 <= m_n < P,
        dj == m_n * redc(x),
    ensures
        redc(acc + mm) == (d + dj) % modulus(),
{
    let p = modulus();
    lemma_redc_add(acc, mm);
    lemma_redc_mul(m_mont, x);
    lemma_redc_mont_form(m_n);
    lemma_small_mod(m_n as nat, p as nat);
    lemma_add_mod_noop(d, dj, p);
}

/// Field words below P stand for themselves after `redc(mont_form(.))`.
proof fn lemma_redc_of_sum(a: int, b: int)
    ensures
        redc((a + b) % modulus()) == (redc(a) + redc(b)) % modulus(),
{
    lemma_redc_mod(a + b);
    lemma_redc_add(a, b);
}

impl Poseidon1 {
    fn apply_mds(&self, s: &[u32; 16]) -> (out: [u32; 16])
        requires
            self.wf(),
            forall|j: int| 0 <= j < 16 ==> #[trigger] s@[j] < P,
        ensures
            forall|j: int| 0 <= j < 16 ==> #[trigger] out@[j] < P,
            demont(out@) == mds_layer(self.mds_model(), demont(s@)),
    {
        // 16 products summed in a u64 (each < P, so the sum stays below 2^35),
        // then one reduction.
        let mut out = [0u32; 16];
        let mut i: usize = 0;
        while i < 16
            invariant
                self.wf(),
                i <= 16,
                forall|j: int| 0 <= j < 16 ==> #[trigger] s@[j] < P,
                forall|k: int| 0 <= k < i ==> #[trigger] out@[k] < P,
                forall|k: int| 0 <= k < i ==> #[trigger] redc(out@[k] as int) == dot(self.mds_model()[k], demont(s@), 16) % modulus(),
            decreases 16 - i,
        {
            let row = &self.mds[i];
            let mut acc: u64 = 0;
            let mut j: usize = 0;
            while j < 16
                invariant
                    self.wf(),
                    i < 16,
                    j <= 16,
                    *row == self.mds@[i as int],
                    forall|k: int| 0 <= k < 16 ==> #[trigger] s@[k] < P,
                    acc <= j * 2130706433,
                    redc(acc as int) == dot(self.mds_model()[i as int], demont(s@), j as int) % modulus(),
                decreases 16 - j,
            {
                proof {
                    assert(self.mds_n@[i as int]@[j as int] < P && self.mds@[i as int]@[j as int] as int == mont_form(self.mds_n@[i as int]@[j as int] as int));
                    lemma_mul_upper_bound(row[j as int] as int, P as int, s[j as int] as int, P as int);
                }
                let mm = mont_mul(row[j], s[j]);
                proof {
                    let m_n = self.mds_model()[i as int][j as int] as int;
                    lemma_mont_dot_step(acc as int, mm as int, row[j as int] as int, m_n, s[j as int] as int,
                        dot(self.mds_model()[i as int], demont(s@), j as int), m_n * demont(s@)[j as int]);
                }
                acc += mm as u64;
                j += 1;
            }
            proof {
                lemma_redc_mod(acc as int);
            }
            out[i] = (acc % PU64) as u32;
            i += 1;
        }
        assert(demont(out@) =~= mds_layer(self.mds_model(), demont(s@)));
        out
    }

    /// One full round on a Montgomery state.
    fn full_round_mont(&self, s: &[u32; 16], idx: usize) -> (out: [u32; 16])
        requires
            self.wf(),
            idx < self.r_f + self.r_p,
            forall|j: int| 0 <= j < 16 ==> #[trigger] s@[j] < P,
        ensures
            forall|j: int| 0 <= j < 16 ==> #[trigger] out@[j] < P,
            demont(out@) == full_round(self.mds_model(), self.rc_model()[idx as int], demont(s@)),
    {
        let ghost a = add_rc(demont(s@), self.rc_model()[idx as int]);
        let mut x = *s;
        let mut i: usize = 0;
        while i < 16
            invariant
                self.wf(),
                idx < self.r_f + self.r_p,
                i <= 16,
                a == add_rc(demont(s@), self.rc_model()[idx as int]),
                forall|j: int| 0 <= j < 16 ==> #[trigger] s@[j] < P,
                forall|j: int| 0 <= j < 16 ==> #[trigger] x@[j] < P,
                forall|j: int| 0 <= j < i ==> #[trigger] redc(x@[j] as int) == sbox(a[j]),
                forall|j: int| i <= j < 16 ==> #[trigger] x@[j] == s@[j],
            decreases 16 - i,
        {
            let c = self.rc[idx][i];
            proof {
                assert(self.rc_n@[idx as int]@[i as int] < P && c as int == mont_form(self.rc_n@[idx as int]@[i as int] as int));
                lemma_mont_form_bound(self.rc_n@[idx as int]@[i as int] as int);
            }
            let y = mont_add(x[i], c);
            proof {
                lemma_redc_of_sum(x[i as int] as int, c as int);
                lemma_redc_mont_form(self.rc_n@[idx as int]@[i as int] as int);
                lemma_small_mod(self.rc_n@[idx as int]@[i as int] as nat, P as nat);
            }
            x[i] = mont_cube(y);
            i += 1;
        }
        assert(demont(x@) =~= Seq::new(16, |j: int| sbox(a[j])));
        self.apply_mds(&x)
    }

    /// One partial round on a Montgomery state.
    fn partial_round_mont(&self, s: &[u32; 16], idx: usize) -> (out: [u32; 16])
        requires
            self.wf(),
            idx < self.r_f + self.r_p,
            forall|j: int| 0 <= j < 16 ==> #[trigger] s@[j] < P,
        ensures
            forall|j: int| 0 <= j < 16 ==> #[trigger] out@[j] < P,
            demont(out@) == partial_round(self.mds_model(), self.rc_model()[idx as int], demont(s@)),
    {
        let ghost a = add_rc(demont(s@), self.rc_model()[idx as int]);
        let mut x = *s;
        let mut i: usize = 0;
        while i < 16
            invariant
                self.wf(),
                idx < self.r_f + self.r_p,
                i <= 16,
                a == add_rc(demont(s@), self.rc_model()[idx as int]),
                forall|j: int| 0 <= j < 16 ==> #[trigger] s@[j] < P,
                forall|j: int| 0 <= j < 16 ==> #[trigger] x@[j] < P,
                forall|j: int| 0 <= j < i ==> #[trigger] redc(x@[j] as int) == a[j],
                forall|j: int| i <= j < 16 ==> #[trigger] x@[j] == s@[j],
            decreases 16 - i,
        {
            let c = self.rc[idx][i];
            proof {
                assert(self.rc_n@[idx as int]@[i as int] < P && c as int == mont_form(self.rc_n@[idx as int]@[i as int] as int));
                lemma_mont_form_bound(self.rc_n@[idx as int]@[i as int] as int);
            }
            x[i] = mont_add(x[i], c);
            proof {
                lemma_redc_of_sum(s[i as int] as int, c as int);
                lemma_redc_mont_form(self.rc_n@[idx as int]@[i as int] as int);
                lemma_small_mod(self.rc_n@[idx as int]@[i as int] as nat, P as nat);
            }
            i += 1;
        }
        x[0] = mont_cube(x[0]);
        assert(demont(x@) =~= a.update(0, sbox(a[0])));
        self.apply_mds(&x)
    }

    /// Permutation on a Montgomery-domain state, optional initial linear layer.
    pub fn perm_mont(&self, state: &[u32; 16], initial_linear: bool) -> (out: [u32; 16])
        requires
            self.wf(),
            forall|j: int| 0 <= j < 16 ==> #[trigger] state@[j] < P,
        ensures
            forall|j: int| 0 <= j < 16 ==> #[trigger] out@[j] < P,
            demont(out@) == self.perm_spec(demont(state@), initial_linear),
    {
        let mut s = *state;
        if initial_linear {
            s = self.apply_mds(&s);
        }
        let ghost s0 = demont(s@);
        let ghost rcs = self.rc_model();
        let ghost m = self.mds_model();
        let half = self.r_f / 2;
        let total = self.rc.len();
        assert(half + self.r_p <= total && 2 * half + self.r_p <= total);
        let mid = half + self.r_p;
        let end = mid + half;
        let mut idx: usize = 0;
        while idx < half
            invariant
                self.wf(),
                half == self.r_f / 2,
                rcs == self.rc_model(),
                m == self.mds_model(),
                idx <= half,
                forall|j: int| 0 <= j < 16 ==> #[trigger] s@[j] < P,
                demont(s@) == rounds(rcs, m, half as int, self.r_p as int, s0, idx as int),
            decreases half - idx,
        {
            s = self.full_round_mont(&s, idx);
            idx += 1;
        }
        while idx < mid
            invariant
                mid == half + self.r_p,
                self.wf(),
                half == self.r_f / 2,
                rcs == self.rc_model(),
                m == self.mds_model(),
                half <= idx <= half + self.r_p,
                forall|j: int| 0 <= j < 16 ==> #[trigger] s@[j] < P,
                demont(s@) == rounds(rcs, m, half as int, self.r_p as int, s0, idx as int),
            decreases half + self.r_p - idx,
        {
            s = self.partial_round_mont(&s, idx);
            idx += 1;
        }
        while idx < end
            invariant
                end == 2 * half + self.r_p,
                self.wf(),
                half == self.r_f / 2,
                rcs == self.rc_model(),
                m == self.mds_model(),
                half + self.r_p <= idx <= 2 * half + self.r_p,
                forall|j: int| 0 <= j < 16 ==> #[trigger] s@[j] < P,
                demont(s@) == rounds(rcs, m, half as int, self.r_p as int, s0, idx as int),
            decreases 2 * half + self.r_p - idx,
        {
            s = self.full_round_mont(&s, idx);
            idx += 1;
        }
        s
    }

    /// The Montgomery form of a state, each word reduced first.
    fn to_mont_state(state: &[u32; 16]) -> (sm: [u32; 16])
        ensures
            forall|j: int| 0 <= j < 16 ==> #[trigger] sm@[j] < P,
            demont(sm@) == reduce_words(state@),
    {
        let mut sm = [0u32; 16];
        let mut i: usize = 0;
        while i < 16
            invariant
                i <= 16,
                forall|j: int| 0 <= j < 16 ==> #[trigger] sm@[j] < P,
                forall|j: int| 0 <= j < i ==> #[trigger] redc(sm@[j] as int) == (state@[j] as int) % modulus(),
            decreases 16 - i,
        {
            sm[i] = to_mont(state[i]);
            proof {
                lemma_redc_mont_form(state[i as int] as int);
            }
            i += 1;
        }
        assert(demont(sm@) =~= reduce_words(state@));
        sm
    }

    /// Words back from Montgomery form.
    fn from_mont_state(o: &[u32; 16]) -> (out: [u32; 16])
        ensures
            forall|j: int| 0 <= j < 16 ==> #[trigger] out@[j] as int == redc(o@[j] as int),
    {
        let mut out = [0u32; 16];
        let mut i: usize = 0;
        while i < 16
            invariant
                i <= 16,
                forall|j: int| 0 <= j < i ==> #[trigger] out@[j] as int == redc(o@[j] as int),
            decreases 16 - i,
        {
            out[i] = from_mont(o[i]);
            i += 1;
        }
        out
    }

    /// Normal-domain permutation (converts in and out).
    pub fn permutation(&self, state: &[u32; 16]) -> (out: [u32; 16])
        requires
            self.wf(),
        ensures
            forall|j: int| 0 <= j < 16 ==> #[trigger] out@[j] as int == self.perm_spec(reduce_words(state@), false)[j],
    {
        let sm = Self::to_mont_state(state);
        let o = self.perm_mont(&sm, false);
        Self::from_mont_state(&o)
    }

    /// Normal-domain permutation preceded by one linear layer.
    pub fn permutation_plus_linear(&self, state: &[u32; 16]) -> (out: [u32; 16])
        requires
            self.wf(),
        ensures
            forall|j: int| 0 <= j < 16 ==> #[trigger] out@[j] as int == self.perm_spec(reduce_words(state@), true)[j],
    {
        let sm = Self::to_mont_state(state);
        let o = self.perm_mont(&sm, true);
        Self::from_mont_state(&o)
    }

    /// Compression-mode hash: `out[i] = perm(in)[i] + in[i]`, first `out_len` words.
    pub fn compression_mode_hash(&self, inputs: &[u32; 16], out_len: usize) -> (r: Vec<u32>)
        requires
            self.wf(),
            out_len <= 16,
        ensures
            r@.len() == out_len,
            forall|j: int| 0 <= j < out_len ==> #[trigger] r@[j] as int == compression_spec(self, inputs@)[j],
    {
        let sm = Self::to_mont_state(inputs);
        let o = self.perm_mont(&sm, false);
        let mut r: Vec<u32> = Vec::new();
        let mut i: usize = 0;
        while i < out_len
            invariant
                self.wf(),
                out_len <= 16,
                i <= out_len,
                r.len() == i,
                forall|j: int| 0 <= j < 16 ==> #[trigger] o@[j] < P,
                forall|j: int| 0 <= j < 16 ==> #[trigger] sm@[j] < P,
                demont(o@) == self.perm_spec(demont(sm@), false),
                demont(sm@) == reduce_words(inputs@),
                forall|j: int| 0 <= j < i ==> #[trigger] r@[j] as int == compression_spec(self, inputs@)[j],
            decreases out_len - i,
        {
            let v = from_mont(mont_add(o[i], sm[i]));
            proof {
                lemma_redc_of_sum(o[i as int] as int, sm[i as int] as int);
            }
            r.push(v);
            i += 1;
        }
        r
    }
}

/// `mont_form` values are reduced.
proof fn lemma_mont_form_bound(x: int)
    ensures
        0 <= mont_form(x) < P,
{
}

/// The compression-mode hash of `inputs` under the permutation with round
/// constants `rcs` and matrix `m`: `perm(in) + in`, word by word.
pub open spec fn compression_model(rcs: Seq<Seq<u32>>, m: Seq<Seq<u32>>, r_f: int, r_p: int, inputs: Seq<u32>) -> Seq<int> {
    let s = reduce_words(inputs);
    let o = poseidon_perm(rcs, m, r_f, r_p, s, false);
    Seq::new(16, |i: int| (o[i] + s[i]) % modulus())
}

/// The compression-mode hash of `inputs` for the instance `pos`.
pub open spec fn compression_spec(pos: &Poseidon1, inputs: Seq<u32>) -> Seq<int> {
    compression_model(pos.rc_model(), pos.mds_model(), pos.r_f as int, pos.r_p as int, inputs)
}

/// The round constants of the canonical instance, one row of 16 per round.
pub open spec fn canonical_rcs(alpha: u32, r_f: nat, r_p: nat) -> Seq<Seq<u32>> {
    let flat = grain_constants_spec(alpha, 16, r_f as u32, r_p as u32, ((r_f + r_p) * 16) as nat);
    Seq::new(r_f + r_p, |r: int| Seq::new(16, |i: int| flat[r * 16 + i]))
}

/// The canonical 16x16 Cauchy matrix.
pub open spec fn canonical_mds() -> Seq<Seq<u32>> {
    Seq::new(16, |i: int| Seq::new(16, |j: int| cauchy_entry(16, i, j) as u32))
}

// ---------------------------------------------------------------------------
// CICO-2 and partial-collision predicates
// ---------------------------------------------------------------------------

pub const CICO_C1: u32 = 0xC09DE4;

pub const CICO_C2: u32 = 0xEE6282;

pub const COLLISION_SEED: u32 = 0xC09DE4;

/// The CICO input state `[C1, C2, free...]`, free words reduced.
pub open spec fn cico_input(free: Seq<u32>) -> Seq<u32> {
    seq![CICO_C1, CICO_C2] + free.map_values(|v: u32| (v % P) as u32)
}

/// The permutation (with initial linear layer) of the CICO input.
pub open spec fn cico_output(pos: &Poseidon1, free: Seq<u32>) -> Seq<int> {
    pos.perm_spec(reduce_words(cico_input(free)), true)
}

/// The CICO input as an array.
fn cico_state(free: &[u32]) -> (st: [u32; 16])
    requires
        free.len() == 14,
    ensures
        st@ == cico_input(free@),
{
    let mut st = [0u32; 16];
    st[0] = CICO_C1;
    st[1] = CICO_C2;
    let mut i: usize = 0;
    while i < 14
        invariant
            free.len() == 14,
            i <= 14,
            st@[0] == CICO_C1,
            st@[1] == CICO_C2,
            forall|k: int| 2 <= k < 2 + i ==> #[trigger] st@[k] == (free@[k - 2] % P) as u32,
        decreases 14 - i,
    {
        st[2 + i] = free[i] % P;
        i += 1;
    }
    assert(st@ =~= cico_input(free@));
    st
}

/// True iff `permutation_plus_linear([C1, C2] + free)[..2] == [0, 0]`.
pub fn verify_cico(pos: &Poseidon1, free: &[u32]) -> (r: bool)
    requires
        pos.wf(),
        free.len() == 14,
    ensures
        r == (cico_output(pos, free@)[0] == 0 && cico_output(pos, free@)[1] == 0),
{
    let st = cico_state(free);
    let out = pos.permutation_plus_linear(&st);
    out[0] == 0 && out[1] == 0
}

/// The two constrained CICO output words (target all-zero).
pub fn cico_residual(pos: &Poseidon1, free: &[u32]) -> (r: (u32, u32))
    requires
        pos.wf(),
        free.len() == 14,
    ensures
        r.0 as int == cico_output(pos, free@)[0],
        r.1 as int == cico_output(pos, free@)[1],
{
    let st = cico_state(free);
    let out = pos.permutation_plus_linear(&st);
    (out[0], out[1])
}

/// The words of `x` reduced mod P.
pub open spec fn reduced_words(x: Seq<u32>) -> Seq<u32> {
    x.map_values(|v: u32| (v % P) as u32)
}

/// The collision hash of a reduced 15-word message: compression of `[seed, x...]`.
pub open spec fn collision_digest(pos: &Poseidon1, x: Seq<u32>) -> Seq<int> {
    compression_spec(pos, seq![COLLISION_SEED] + x)
}

/// True iff `x != y` and their hashes agree on the first `t_collide` words.
pub fn verify_collision(pos: &Poseidon1, x: &[u32], y: &[u32], t_collide: usize) -> (r: bool)
    requires
        pos.wf(),
        x.len() == 15,
        y.len() == 15,
        reduced_words(x@) != reduced_words(y@) ==> t_collide <= 16,
    ensures
        r == (reduced_words(x@) != reduced_words(y@) && forall|i: int|
            0 <= i < t_collide ==> #[trigger] collision_digest(pos, reduced_words(x@))[i] == collision_digest(pos, reduced_words(y@))[i]),
{
    let xn = reduce_all(x);
    let yn = reduce_all(y);
    let mut same = true;
    let mut i: usize = 0;
    while i < 15
        invariant
            xn@ == reduced_words(x@),
            yn@ == reduced_words(y@),
            x.len() == 15,
            y.len() == 15,
            i <= 15,
            same <==> (forall|j: int| 0 <= j < i ==> #[trigger] xn@[j] == yn@[j]),
        decreases 15 - i,
    {
        if xn[i] != yn[i] {
            same = false;
        }
        i += 1;
    }
    if same {
        assert(xn@ =~= yn@);
        return false;
    }
    assert(xn@ != yn@);
    let hx = collision_hash(pos, &xn);
    let hy = collision_hash(pos, &yn);
    let mut k: usize = 0;
    while k < t_collide
        invariant
            t_collide <= 16,
            k <= t_collide,
            xn@ == reduced_words(x@),
            yn@ == reduced_words(y@),
            hx@.len() == 16,
            hy@.len() == 16,
            forall|j: int| 0 <= j < 16 ==> #[trigger] hx@[j] as int == collision_digest(pos, xn@)[j],
            forall|j: int| 0 <= j < 16 ==> #[trigger] hy@[j] as int == collision_digest(pos, yn@)[j],
            forall|j: int| 0 <= j < k ==> #[trigger] collision_digest(pos, xn@)[j] == collision_digest(pos, yn@)[j],
        decreases t_collide - k,
    {
        if hx[k] != hy[k] {
            assert(collision_digest(pos, reduced_words(x@))[k as int] != collision_digest(pos, reduced_words(y@))[k as int]);
            return false;
        }
        k += 1;
    }
    true
}

/// Each word reduced mod P.
pub(crate) fn reduce_all(x: &[u32]) -> (r: Vec<u32>)
    ensures
        r@ == reduced_words(x@),
        r.len() == x.len(),
        crate::poly_spec::reduced(r@),
{
    let mut r: Vec<u32> = Vec::new();
    let mut i: usize = 0;
    while i < x.len()
        invariant
            i <= x.len(),
            r@ == reduced_words(x@).subrange(0, i as int),
        decreases x.len() - i,
    {
        r.push(x[i] % P);
        i += 1;
        assert(r@ =~= reduced_words(x@).subrange(0, i as int));
    }
    assert(reduced_words(x@).subrange(0, x.len() as int) =~= reduced_words(x@));
    r
}

fn collision_hash(pos: &Poseidon1, x: &[u32]) -> (h: Vec<u32>)
    requires
        pos.wf(),
        x.len() == 15,
    ensures
        h@.len() == 16,
        forall|j: int| 0 <= j < 16 ==> #[trigger] h@[j] as int == collision_digest(pos, x@)[j],
{
    let mut inp = [0u32; 16];
    inp[0] = COLLISION_SEED;
    let mut i: usize = 0;
    while i < 15
        invariant
            x.len() == 15,
            i <= 15,
            inp@[0] == COLLISION_SEED,
            forall|k: int| 1 <= k < 1 + i ==> #[trigger] inp@[k] == x@[k - 1],
        decreases 15 - i,
    {
        inp[1 + i] = x[i];
        i += 1;
    }
    assert(inp@ =~= seq![COLLISION_SEED] + x@);
    pos.compression_mode_hash(&inp, 16)
}

/// Multiplying Montgomery forms with `mont_mul` multiplies the field elements
/// they stand for: `from_mont(mont_mul(to_mont(a), to_mont(b))) == a * b mod P`.
pub proof fn lemma_mont_mul_normal(a: int, b: int)
    ensures
        redc(redc(mont_form(a) * mont_form(b))) == (a * b) % modulus(),
{
    let p = modulus();
    lemma_redc_mul(mont_form(a), mont_form(b));
    lemma_redc_mont_form(a);
    lemma_redc_mont_form(b);
    lemma_mul_mod_noop(a, b, p);
}

/// Cubing a Montgomery form with `mont_cube` cubes the field element:
/// `from_mont(mont_cube(to_mont(a))) == a^3 mod P`.
pub proof fn lemma_mont_cube_normal(a: int)
    ensures
        (redc(mont_form(a)) * redc(mont_form(a)) * redc(mont_form(a))) % modulus() == (a * a * a) % modulus(),
{
    let p = modulus();
    lemma_redc_mont_form(a);
    lemma_mul_mod_noop(a, a, p);
    lemma_mul_mod_noop_left(a * a, a, p);
    lemma_mul_mod_noop(a * a, a, p);
    lemma_mul_mod_noop_left((a % p) * (a % p), a % p, p);
    lemma_mul_mod_noop_right((a * a) % p, a, p);
}

} // verus!
