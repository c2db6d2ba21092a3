//! The mathematical model of the Poseidon1 permutation over F_p (normal
//! domain, state width 16), and of the Grain LFSR that derives its round
//! constants.
use vstd::prelude::*;

use crate::field::modulus;
use crate::{redc, P};

verus! {

// ---------------------------------------------------------------------------
// Grain LFSR
// ---------------------------------------------------------------------------

/// Feedback bit of the Grain LFSR.
pub open spec fn grain_feedback(s: Seq<u8>) -> u8 {
    s[0] ^ s[13] ^ s[23] ^ s[38] ^ s[51] ^ s[62]
}

/// One clock: every bit moves one place down and the feedback enters at the top.
pub open spec fn grain_step(s: Seq<u8>) -> Seq<u8> {
    s.subrange(1, 80).push(grain_feedback(s))
}

/// `n` clocks.
pub open spec fn grain_run(s: Seq<u8>, n: nat) -> Seq<u8>
    decreases n,
{
    if n == 0 {
        s
    } else {
        grain_step(grain_run(s, (n - 1) as nat))
    }
}

/// The value of the next `n` output bits, most significant first (in 64 bits).
pub open spec fn grain_block(s: Seq<u8>, n: nat) -> u64
    decreases n,
{
    if n == 0 {
        0
    } else {
        (grain_block(s, (n - 1) as nat) << 1u64) | (grain_run(s, (n - 1) as nat)[0] as u64)
    }
}

/// Number of blocks read before rejection sampling gives up.
pub open spec fn grain_attempts() -> nat {
    4294967296
}

/// Rejection sampling: the first `n`-bit block below P, trying at most
/// `fuel` blocks (the last one is then reduced mod P); with the state after.
pub open spec fn grain_sample(s: Seq<u8>, n: nat, fuel: nat) -> (u32, Seq<u8>)
    decreases fuel,
{
    let v = grain_block(s, n);
    let s2 = grain_run(s, n);
    if v < P as u64 {
        (v as u32, s2)
    } else if fuel <= 1 {
        ((v % (P as u64)) as u32, s2)
    } else {
        grain_sample(s2, n, (fuel - 1) as nat)
    }
}

/// The `k`-th sampled field element, with the state after it.
pub open spec fn grain_nth(s: Seq<u8>, n: nat, k: nat) -> (u32, Seq<u8>)
    decreases k,
{
    if k == 0 {
        grain_sample(s, n, grain_attempts())
    } else {
        grain_sample(grain_nth(s, n, (k - 1) as nat).1, n, grain_attempts())
    }
}

/// The low `n` bits of `v`, most significant first.
pub open spec fn bits_of(v: u32, n: nat) -> Seq<u8> {
    Seq::new(n, |i: int| ((v >> ((n - 1 - i) as u32)) & 1u32) as u8)
}

/// The 80-bit initial state: field type, S-box type, then the parameters.
pub open spec fn grain_seed(prime_bit_len: u32, alpha: u32, t: u32, r_f: u32, r_p: u32) -> Seq<u8> {
    seq![1u8, 0u8, 0u8] + bits_of(alpha, 5) + bits_of(prime_bit_len, 10) + bits_of(t, 10)
        + bits_of(r_f, 10) + bits_of(r_p, 10) + Seq::new(32, |i: int| 1u8)
}

// ---------------------------------------------------------------------------
// Poseidon1 over F_p
// ---------------------------------------------------------------------------

/// The S-box `x^3`.
pub open spec fn sbox(x: int) -> int {
    (x * x * x) % modulus()
}

/// `sum_{j < n} row[j] * s[j]`.
pub open spec fn dot(row: Seq<u32>, s: Seq<int>, n: int) -> int
    decreases n,
{
    if n <= 0 {
        0
    } else {
        dot(row, s, n - 1) + (row[n - 1] as int) * s[n - 1]
    }
}

/// The linear layer `M s`.
pub open spec fn mds_layer(m: Seq<Seq<u32>>, s: Seq<int>) -> Seq<int> {
    Seq::new(16, |i: int| dot(m[i], s, 16) % modulus())
}

/// Adding a row of round constants.
pub open spec fn add_rc(s: Seq<int>, rc: Seq<u32>) -> Seq<int> {
    Seq::new(16, |i: int| (s[i] + rc[i]) % modulus())
}

/// A full round: constants, the S-box on every word, the linear layer.
pub open spec fn full_round(m: Seq<Seq<u32>>, rc: Seq<u32>, s: Seq<int>) -> Seq<int> {
    let a = add_rc(s, rc);
    mds_layer(m, Seq::new(16, |i: int| sbox(a[i])))
}

/// A partial round: constants, the S-box on word 0, the linear layer.
pub open spec fn partial_round(m: Seq<Seq<u32>>, rc: Seq<u32>, s: Seq<int>) -> Seq<int> {
    let a = add_rc(s, rc);
    mds_layer(m, a.update(0, sbox(a[0])))
}

/// Rounds `0..k`: `half` full rounds, `r_p` partial rounds, then full rounds.
pub open spec fn rounds(rcs: Seq<Seq<u32>>, m: Seq<Seq<u32>>, half: int, r_p: int, s: Seq<int>, k: int) -> Seq<int>
    decreases k,
{
    if k <= 0 {
        s
    } else {
        let prev = rounds(rcs, m, half, r_p, s, k - 1);
        if half <= k - 1 < half + r_p {
            partial_round(m, rcs[k - 1], prev)
        } else {
            full_round(m, rcs[k - 1], prev)
        }
    }
}

/// The Poseidon1 permutation with `r_f` full and `r_p` partial rounds,
/// optionally preceded by one application of the linear layer.
pub open spec fn poseidon_perm(
    rcs: Seq<Seq<u32>>,
    m: Seq<Seq<u32>>,
    r_f: int,
    r_p: int,
    s: Seq<int>,
    initial_linear: bool,
) -> Seq<int> {
    let s0 = if initial_linear {
        mds_layer(m, s)
    } else {
        s
    };
    rounds(rcs, m, r_f / 2, r_p, s0, 2 * (r_f / 2) + r_p)
}

/// The field elements a Montgomery-form state stands for.
pub open spec fn demont(s: Seq<u32>) -> Seq<int> {
    Seq::new(s.len(), |i: int| redc(s[i] as int))
}

/// Words reduced mod P.
pub open spec fn reduce_words(s: Seq<u32>) -> Seq<int> {
    Seq::new(s.len(), |i: int| (s[i] as int) % modulus())
}

} // verus!
