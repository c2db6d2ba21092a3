//! Candidate width-16 MDS matrices and the cheap facts a scout reports about
//! them: the families drawn from a seed, sparsity counts, how far the first
//! word's support spreads through repeated linear layers, and an FNV-1a
//! fingerprint of the entries.
use vstd::arithmetic::div_mod::*;
use vstd::arithmetic::power::*;
use vstd::prelude::*;

use crate::field::modulus;
use crate::poly::{fadd, fmul, fsub, splitmix_advance, splitmix_mix, SplitMix};
use crate::{cauchy_entry, cauchy_mds, circulant_mds, modinv, P};

verus! {

const PU64: u64 = 2130706433;

/// The width of the matrices.
pub const MDS_T: usize = 16;

/// The SplitMix64 state after `k` steps from `s`.
pub open spec fn splitmix_state(s: u64, k: nat) -> u64
    decreases k,
{
    if k == 0 {
        s
    } else {
        splitmix_advance(splitmix_state(s, (k - 1) as nat))
    }
}

/// The `k`-th nonzero field element drawn from the state `s`, from zero.
pub open spec fn nonzero_draw(s: u64, k: nat) -> int {
    1 + (splitmix_mix(splitmix_state(s, k + 1)) as int) % (modulus() - 1)
}

/// One draw from `1..P`.
fn draw_nonzero(rng: &mut SplitMix) -> (r: u32)
    ensures
        final(rng)@ == splitmix_advance(old(rng)@),
        r as int == 1 + (splitmix_mix(splitmix_advance(old(rng)@)) as int) % (modulus() - 1),
        1 <= r < P,
{
    let z: u64 = rng.next_u64();
    (1 + z % (PU64 - 1)) as u32
}

/// `n` draws from `1..P`, in order.
fn draw_row(rng: &mut SplitMix, n: usize) -> (row: Vec<u32>)
    ensures
        row.len() == n,
        final(rng)@ == splitmix_state(old(rng)@, n as nat),
        forall|k: int| 0 <= k < n ==> #[trigger] row[k] as int == nonzero_draw(old(rng)@, k as nat),
        forall|k: int| 0 <= k < n ==> 1 <= #[trigger] row[k] < P,
{
    let ghost s0 = rng@;
    let mut row: Vec<u32> = Vec::new();
    let mut k: usize = 0;
    while k < n
        invariant
            k <= n,
            row.len() == k,
            rng@ == splitmix_state(s0, k as nat),
            forall|a: int| 0 <= a < k ==> #[trigger] row[a] as int == nonzero_draw(s0, a as nat),
            forall|a: int| 0 <= a < k ==> 1 <= #[trigger] row[a] < P,
        decreases n - k,
    {
        let v: u32 = draw_nonzero(rng);
        proof {
            assert(splitmix_state(s0, (k + 1) as nat) == splitmix_advance(splitmix_state(s0, k as nat)));
        }
        row.push(v);
        k += 1;
    }
    row
}

/// The first row of the Plonky3 width-16 circulant.
pub open spec fn plonky3_row_spec() -> Seq<u32> {
    seq![1u32, 1, 51, 1, 11, 17, 2, 1, 101, 63, 15, 2, 67, 22, 13, 3]
}

/// The first row of the Plonky3 width-16 circulant.
pub fn plonky3_first_row() -> (r: Vec<u32>)
    ensures
        r@ == plonky3_row_spec(),
{
    let r: Vec<u32> = vec![1u32, 1, 51, 1, 11, 17, 2, 1, 101, 63, 15, 2, 67, 22, 13, 3];
    proof {
        assert(r@ =~= plonky3_row_spec());
    }
    r
}

/// The column offset of the Cauchy variant of a seed.
pub open spec fn cauchy_variant_offset(seed: u64) -> int {
    19 + (seed % 10000) * 37
}

/// `x_i - y_j` of the Cauchy variant: `x_i = 1 + 2i`, `y_j = offset + 3j + 1000`.
pub open spec fn cauchy_variant_diff(seed: u64, i: int, j: int) -> int {
    (1 + 2 * i) - (cauchy_variant_offset(seed) + 3 * j + 1000)
}

/// The Cauchy variant entry `(x_i - y_j)^(-1) mod P`.
pub open spec fn cauchy_variant_entry(seed: u64, i: int, j: int) -> int {
    pow(cauchy_variant_diff(seed, i, j) % modulus(), (modulus() - 2) as nat) % modulus()
}

/// A Cauchy matrix whose column points are shifted by the seed; every entry
/// is the inverse of `x_i - y_j`.
pub fn cauchy_variant(seed: u64) -> (m: Vec<Vec<u32>>)
    ensures
        m.len() == MDS_T,
        forall|i: int| 0 <= i < MDS_T ==> #[trigger] m[i].len() == MDS_T,
        forall|i: int, j: int| 0 <= i < MDS_T && 0 <= j < MDS_T ==> #[trigger] m[i][j] as int == cauchy_variant_entry(seed, i, j),
        forall|i: int, j: int| 0 <= i < MDS_T && 0 <= j < MDS_T ==> (cauchy_variant_diff(seed, i, j) * #[trigger] m[i][j]) % modulus() == 1,
{
    let offset: u32 = 19 + ((seed % 10000) as u32) * 37;
    let mut m: Vec<Vec<u32>> = Vec::new();
    let mut i: usize = 0;
    while i < MDS_T
        invariant
            i <= MDS_T,
            offset == cauchy_variant_offset(seed),
            m.len() == i,
            forall|a: int| 0 <= a < i ==> #[trigger] m[a].len() == MDS_T,
            forall|a: int, b: int| 0 <= a < i && 0 <= b < MDS_T ==> #[trigger] m[a][b] as int == cauchy_variant_entry(seed, a, b),
            forall|a: int, b: int| 0 <= a < i && 0 <= b < MDS_T ==> (cauchy_variant_diff(seed, a, b) * #[trigger] m[a][b]) % modulus() == 1,
        decreases MDS_T - i,
    {
        let mut row: Vec<u32> = Vec::new();
        let mut j: usize = 0;
        while j < MDS_T
            invariant
                i < MDS_T,
                j <= MDS_T,
                offset == cauchy_variant_offset(seed),
                row.len() == j,
                forall|b: int| 0 <= b < j ==> #[trigger] row[b] as int == cauchy_variant_entry(seed, i as int, b),
                forall|b: int| 0 <= b < j ==> (cauchy_variant_diff(seed, i as int, b) * #[trigger] row[b]) % modulus() == 1,
            decreases MDS_T - j,
        {
            let x: u32 = 1 + 2 * (i as u32);
            let y: u32 = offset + 3 * (j as u32) + 1000;
            let d: u32 = fsub(x, y);
            let r: u32 = modinv(d);
            proof {
                let diff = cauchy_variant_diff(seed, i as int, j as int);
                assert(diff == x - y);
                assert(-modulus() < diff < 0);
                lemma_mod_basics_neg(diff);
                lemma_mul_mod_noop_left(diff, r as int, modulus());
            }
            row.push(r);
            j += 1;
        }
        m.push(row);
        i += 1;
    }
    m
}

/// A negative value above `-P` is not divisible by `P`.
proof fn lemma_mod_basics_neg(x: int)
    requires
        -modulus() < x < 0,
    ensures
        x % modulus() != 0,
        x % modulus() == x + modulus(),
{
    lemma_fundamental_div_mod(x, modulus());
    assert(x == modulus() * (-1) + (x + modulus()));
    lemma_fundamental_div_mod_converse(x, modulus(), -1, x + modulus());
}

/// The first row of the random circulant of a seed; seed zero is Plonky3's.
pub open spec fn circulant_row_entry(seed: u64, k: int) -> int {
    if seed == 0 {
        plonky3_row_spec()[k] as int
    } else {
        nonzero_draw(seed ^ 0xC1AC_0000_0000_0001u64, k as nat)
    }
}

/// A circulant whose first row is drawn from the seed (Plonky3's row for
/// seed zero).
pub fn random_circulant(seed: u64) -> (m: Vec<Vec<u32>>)
    ensures
        m.len() == MDS_T,
        forall|i: int| 0 <= i < MDS_T ==> #[trigger] m[i].len() == MDS_T,
        forall|i: int, j: int| 0 <= i < MDS_T && 0 <= j < MDS_T ==> #[trigger] m[i][j] as int == circulant_row_entry(seed, (j + MDS_T - i) % (MDS_T as int)),
{
    let row: Vec<u32> = if seed == 0 {
        plonky3_first_row()
    } else {
        let mut rng = SplitMix::new(seed ^ 0xC1AC_0000_0000_0001u64);
        draw_row(&mut rng, MDS_T)
    };
    proof {
        assert forall|k: int| 0 <= k < MDS_T implies (#[trigger] row[k]) as int == circulant_row_entry(seed, k) && row[k] < P by {
            if seed == 0 {
                assert(row@ == plonky3_row_spec());
            }
        }
    }
    let m = circulant_mds(&row);
    proof {
        assert forall|i: int, j: int| 0 <= i < MDS_T && 0 <= j < MDS_T implies #[trigger] m[i][j] as int == circulant_row_entry(seed, (j + MDS_T - i) % (MDS_T as int)) by {
            let k = (j + MDS_T - i) % (MDS_T as int);
            lemma_small_mod(row[k] as nat, P as nat);
        }
    }
    m
}

/// `u_i v_j`, plus `d_i` on the diagonal.
pub open spec fn spd_entry(seed: u64, i: int, j: int) -> int {
    let s0 = seed ^ 0x5A5A_51A5_0000_0001u64;
    let s1 = splitmix_state(s0, 16);
    let s2 = splitmix_state(s1, 16);
    let rank_one = (nonzero_draw(s0, i as nat) * nonzero_draw(s1, j as nat)) % modulus();
    if i == j {
        (rank_one + nonzero_draw(s2, i as nat)) % modulus()
    } else {
        rank_one
    }
}

/// A rank-one matrix `u v^T` plus a diagonal `d`, all drawn from the seed.
pub fn sparse_plus_dense(seed: u64) -> (m: Vec<Vec<u32>>)
    ensures
        m.len() == MDS_T,
        forall|i: int| 0 <= i < MDS_T ==> #[trigger] m[i].len() == MDS_T,
        forall|i: int, j: int| 0 <= i < MDS_T && 0 <= j < MDS_T ==> #[trigger] m[i][j] as int == spd_entry(seed, i, j),
{
    let mut rng = SplitMix::new(seed ^ 0x5A5A_51A5_0000_0001u64);
    let ghost s0 = rng@;
    let u = draw_row(&mut rng, MDS_T);
    let ghost s1 = rng@;
    let v = draw_row(&mut rng, MDS_T);
    let ghost s2 = rng@;
    let d = draw_row(&mut rng, MDS_T);
    let mut m: Vec<Vec<u32>> = Vec::new();
    let mut i: usize = 0;
    while i < MDS_T
        invariant
            i <= MDS_T,
            s0 == seed ^ 0x5A5A_51A5_0000_0001u64,
            s1 == splitmix_state(s0, 16),
            s2 == splitmix_state(s1, 16),
            u.len() == MDS_T && v.len() == MDS_T && d.len() == MDS_T,
            forall|k: int| 0 <= k < MDS_T ==> #[trigger] u[k] as int == nonzero_draw(s0, k as nat) && u[k] < P,
            forall|k: int| 0 <= k < MDS_T ==> #[trigger] v[k] as int == nonzero_draw(s1, k as nat) && v[k] < P,
            forall|k: int| 0 <= k < MDS_T ==> #[trigger] d[k] as int == nonzero_draw(s2, k as nat) && d[k] < P,
            m.len() == i,
            forall|a: int| 0 <= a < i ==> #[trigger] m[a].len() == MDS_T,
            forall|a: int, b: int| 0 <= a < i && 0 <= b < MDS_T ==> #[trigger] m[a][b] as int == spd_entry(seed, a, b),
        decreases MDS_T - i,
    {
        let mut row: Vec<u32> = Vec::new();
        let mut j: usize = 0;
        while j < MDS_T
            invariant
                i < MDS_T,
                j <= MDS_T,
                s0 == seed ^ 0x5A5A_51A5_0000_0001u64,
                s1 == splitmix_state(s0, 16),
                s2 == splitmix_state(s1, 16),
                u.len() == MDS_T && v.len() == MDS_T && d.len() == MDS_T,
                forall|k: int| 0 <= k < MDS_T ==> #[trigger] u[k] as int == nonzero_draw(s0, k as nat) && u[k] < P,
                forall|k: int| 0 <= k < MDS_T ==> #[trigger] v[k] as int == nonzero_draw(s1, k as nat) && v[k] < P,
                forall|k: int| 0 <= k < MDS_T ==> #[trigger] d[k] as int == nonzero_draw(s2, k as nat) && d[k] < P,
                row.len() == j,
                forall|b: int| 0 <= b < j ==> #[trigger] row[b] as int == spd_entry(seed, i as int, b),
            decreases MDS_T - j,
        {
            let rank_one: u32 = fmul(u[i], v[j]);
            let e: u32 = if i == j {
                fadd(rank_one, d[i])
            } else {
                rank_one
            };
            row.push(e);
            j += 1;
        }
        m.push(row);
        i += 1;
    }
    m
}

/// The matrix families the scout compares.
#[derive(Clone, Copy, Debug, PartialEq, Eq, Structural)]
pub enum MdsFamily {
    CauchyDefault,
    CauchyVariant,
    Circulant,
    Plonky3Circulant,
    SparsePlusDense,
}

/// Entry `(i, j)` of the family's matrix for a seed.
pub open spec fn family_entry(family: MdsFamily, seed: u64, i: int, j: int) -> int {
    match family {
        MdsFamily::CauchyDefault => cauchy_entry(MDS_T as int, i, j),
        MdsFamily::CauchyVariant => cauchy_variant_entry(seed, i, j),
        MdsFamily::Circulant => circulant_row_entry(seed, (j + MDS_T - i) % (MDS_T as int)),
        MdsFamily::Plonky3Circulant => plonky3_row_spec()[(j + MDS_T - i) % (MDS_T as int)] as int,
        MdsFamily::SparsePlusDense => spd_entry(seed, i, j),
    }
}

/// The family's matrix for a seed.
pub fn matrix_for(family: MdsFamily, seed: u64) -> (m: Vec<Vec<u32>>)
    ensures
        m.len() == MDS_T,
        forall|i: int| 0 <= i < MDS_T ==> #[trigger] m[i].len() == MDS_T,
        forall|i: int, j: int| 0 <= i < MDS_T && 0 <= j < MDS_T ==> #[trigger] m[i][j] as int == family_entry(family, seed, i, j),
{
    match family {
        MdsFamily::CauchyDefault => cauchy_mds(MDS_T),
        MdsFamily::CauchyVariant => cauchy_variant(seed),
        MdsFamily::Circulant => random_circulant(seed),
        MdsFamily::Plonky3Circulant => {
            let row = plonky3_first_row();
            let m = circulant_mds(&row);
            proof {
                assert forall|i: int, j: int| 0 <= i < MDS_T && 0 <= j < MDS_T implies #[trigger] m[i][j] as int == family_entry(family, seed, i, j) by {
                    let k = (j + MDS_T - i) % (MDS_T as int);
                    assert(0 <= k < 16);
                    assert(row[k] < 102);
                    lemma_small_mod(row[k] as nat, P as nat);
                }
            }
            m
        },
        MdsFamily::SparsePlusDense => sparse_plus_dense(seed),
    }
}

/// Nonzero entries among `row[0..n]`.
pub open spec fn nz_count(row: Seq<u32>, n: int) -> int
    decreases n,
{
    if n <= 0 {
        0
    } else {
        nz_count(row, n - 1) + (if row[n - 1] != 0 { 1int } else { 0int })
    }
}

/// Nonzero entries of a row.
pub open spec fn row_nz(m: Seq<Vec<u32>>, r: int) -> int {
    nz_count(m[r]@, m[r].len() as int)
}

/// Nonzero entries of rows `0..n`.
pub open spec fn total_nz(m: Seq<Vec<u32>>, n: int) -> int
    decreases n,
{
    if n <= 0 {
        0
    } else {
        total_nz(m, n - 1) + row_nz(m, n - 1)
    }
}

/// The least row count over rows `0..n`, starting from the width.
pub open spec fn rows_min(m: Seq<Vec<u32>>, n: int) -> int
    decreases n,
{
    if n <= 0 {
        MDS_T as int
    } else if row_nz(m, n - 1) < rows_min(m, n - 1) {
        row_nz(m, n - 1)
    } else {
        rows_min(m, n - 1)
    }
}

/// The greatest row count over rows `0..n`.
pub open spec fn rows_max(m: Seq<Vec<u32>>, n: int) -> int
    decreases n,
{
    if n <= 0 {
        0
    } else if row_nz(m, n - 1) > rows_max(m, n - 1) {
        row_nz(m, n - 1)
    } else {
        rows_max(m, n - 1)
    }
}

/// Nonzero entries of column `j` among rows `0..n`.
pub open spec fn col_count(m: Seq<Vec<u32>>, j: int, n: int) -> int
    decreases n,
{
    if n <= 0 {
        0
    } else {
        col_count(m, j, n - 1) + (if j < m[n - 1].len() && m[n - 1][j] != 0 { 1int } else { 0int })
    }
}

/// The least column count over columns `0..k` (`k >= 1`).
pub open spec fn cols_min(m: Seq<Vec<u32>>, k: int) -> int
    decreases k,
{
    if k <= 1 {
        col_count(m, 0, m.len() as int)
    } else if col_count(m, k - 1, m.len() as int) < cols_min(m, k - 1) {
        col_count(m, k - 1, m.len() as int)
    } else {
        cols_min(m, k - 1)
    }
}

/// The greatest column count over columns `0..k` (`k >= 1`).
pub open spec fn cols_max(m: Seq<Vec<u32>>, k: int) -> int
    decreases k,
{
    if k <= 1 {
        col_count(m, 0, m.len() as int)
    } else if col_count(m, k - 1, m.len() as int) > cols_max(m, k - 1) {
        col_count(m, k - 1, m.len() as int)
    } else {
        cols_max(m, k - 1)
    }
}

/// Sparsity counts of a matrix.
#[derive(Clone, Copy, Debug, PartialEq, Eq, Structural)]
pub struct MatrixMetrics {
    pub nonzero: usize,
    pub row_min: usize,
    pub row_max: usize,
    pub col_min: usize,
    pub col_max: usize,
}

proof fn lemma_col_bound(m: Seq<Vec<u32>>, j: int, n: int)
    requires
        0 <= n,
    ensures
        0 <= col_count(m, j, n) <= n,
    decreases n,
{
    if n > 0 {
        lemma_col_bound(m, j, n - 1);
    }
}

/// Nonzero count, least and greatest nonzero count of a row and of a column
/// (rows of at most sixteen entries).
pub fn matrix_metrics(m: &[Vec<u32>]) -> (r: MatrixMetrics)
    requires
        m.len() <= 0x100_0000,
        forall|i: int| 0 <= i < m.len() ==> #[trigger] m[i].len() <= MDS_T,
    ensures
        r.nonzero as int == total_nz(m@, m.len() as int),
        r.row_min as int == rows_min(m@, m.len() as int),
        r.row_max as int == rows_max(m@, m.len() as int),
        r.col_min as int == cols_min(m@, MDS_T as int),
        r.col_max as int == cols_max(m@, MDS_T as int),
{
    let mut nonzero: usize = 0;
    let mut row_min: usize = MDS_T;
    let mut row_max: usize = 0;
    let mut col_counts: Vec<usize> = vec![0usize; MDS_T];
    let mut i: usize = 0;
    while i < m.len()
        invariant
            m.len() <= 0x100_0000,
            forall|a: int| 0 <= a < m.len() ==> #[trigger] m[a].len() <= MDS_T,
            i <= m.len(),
            nonzero as int == total_nz(m@, i as int),
            nonzero <= i * MDS_T,
            row_min as int == rows_min(m@, i as int),
            row_max as int == rows_max(m@, i as int),
            col_counts.len() == MDS_T,
            forall|j: int| 0 <= j < MDS_T ==> #[trigger] col_counts[j] as int == col_count(m@, j, i as int),
        decreases m.len() - i,
    {
        let row = &m[i];
        let mut row_nz: usize = 0;
        let mut j: usize = 0;
        while j < row.len()
            invariant
                m.len() <= 0x100_0000,
                i < m.len(),
                row == m[i as int],
                row.len() <= MDS_T,
                j <= row.len(),
                row_nz as int == nz_count(row@, j as int),
                row_nz <= j,
                col_counts.len() == MDS_T,
                forall|c: int| 0 <= c < j ==> #[trigger] col_counts[c] as int == col_count(m@, c, i as int + 1),
                forall|c: int| j <= c < MDS_T ==> #[trigger] col_counts[c] as int == col_count(m@, c, i as int),
            decreases row.len() - j,
        {
            if row[j] != 0 {
                proof {
                    lemma_col_bound(m@, j as int, i as int);
                }
                row_nz += 1;
                let c: usize = col_counts[j] + 1;
                col_counts.set(j, c);
            }
            j += 1;
        }
        proof {
            assert forall|c: int| 0 <= c < MDS_T implies #[trigger] col_counts[c] as int == col_count(m@, c, i as int + 1) by {
                if c >= row.len() {
                    assert(col_count(m@, c, i as int + 1) == col_count(m@, c, i as int));
                }
            }
        }
        if row_nz < row_min {
            row_min = row_nz;
        }
        if row_nz > row_max {
            row_max = row_nz;
        }
        nonzero = nonzero + row_nz;
        i += 1;
    }
    let mut col_min: usize = col_counts[0];
    let mut col_max: usize = col_counts[0];
    let mut k: usize = 1;
    while k < MDS_T
        invariant
            1 <= k <= MDS_T,
            col_counts.len() == MDS_T,
            forall|j: int| 0 <= j < MDS_T ==> #[trigger] col_counts[j] as int == col_count(m@, j, m.len() as int),
            col_min as int == cols_min(m@, k as int),
            col_max as int == cols_max(m@, k as int),
        decreases MDS_T - k,
    {
        if col_counts[k] < col_min {
            col_min = col_counts[k];
        }
        if col_counts[k] > col_max {
            col_max = col_counts[k];
        }
        k += 1;
    }
    MatrixMetrics { nonzero, row_min, row_max, col_min, col_max }
}

/// One linear layer applied to a support: row `i` becomes active when some
/// active column `j` has `m[i][j] != 0`.
pub open spec fn support_step(m: Seq<Vec<u32>>, active: Seq<bool>) -> Seq<bool> {
    Seq::new(MDS_T as nat, |i: int| exists|j: int| 0 <= j < MDS_T && m[i][j] != 0 && active[j])
}

/// The support after `r` layers, starting from the first word alone.
pub open spec fn support_after(m: Seq<Vec<u32>>, r: nat) -> Seq<bool>
    decreases r,
{
    if r == 0 {
        Seq::new(MDS_T as nat, |i: int| i == 0)
    } else {
        support_step(m, support_after(m, (r - 1) as nat))
    }
}

/// Number of `true` entries of `s[0..n]`.
pub open spec fn count_true(s: Seq<bool>, n: int) -> int
    decreases n,
{
    if n <= 0 {
        0
    } else {
        count_true(s, n - 1) + (if s[n - 1] { 1int } else { 0int })
    }
}

/// The size of the first word's support after each of `rounds` layers.
pub fn support_counts(m: &[Vec<u32>], rounds: usize) -> (out: Vec<usize>)
    requires
        rounds > 0 ==> m.len() >= MDS_T,
        rounds > 0 ==> forall|i: int| 0 <= i < MDS_T ==> #[trigger] m[i].len() >= MDS_T,
    ensures
        out.len() == rounds,
        forall|r: int| 0 <= r < rounds ==> #[trigger] out[r] as int == count_true(support_after(m@, (r + 1) as nat), MDS_T as int),
{
    let mut active: Vec<bool> = Vec::new();
    let mut i: usize = 0;
    while i < MDS_T
        invariant
            i <= MDS_T,
            active.len() == i,
            forall|a: int| 0 <= a < i ==> #[trigger] active[a] == (a == 0),
        decreases MDS_T - i,
    {
        active.push(i == 0);
        i += 1;
    }
    proof {
        assert(active@ =~= support_after(m@, 0));
    }
    let mut out: Vec<usize> = Vec::new();
    let mut r: usize = 0;
    while r < rounds
        invariant
            rounds > 0 ==> m.len() >= MDS_T,
            rounds > 0 ==> forall|i: int| 0 <= i < MDS_T ==> #[trigger] m[i].len() >= MDS_T,
            r <= rounds,
            active@ == support_after(m@, r as nat),
            out.len() == r,
            forall|q: int| 0 <= q < r ==> #[trigger] out[q] as int == count_true(support_after(m@, (q + 1) as nat), MDS_T as int),
        decreases rounds - r,
    {
        let mut next: Vec<bool> = Vec::new();
        let mut i: usize = 0;
        while i < MDS_T
            invariant
                m.len() >= MDS_T,
                forall|i: int| 0 <= i < MDS_T ==> #[trigger] m[i].len() >= MDS_T,
                active.len() == MDS_T,
                i <= MDS_T,
                next.len() == i,
                forall|a: int| 0 <= a < i ==> #[trigger] next[a] == support_step(m@, active@)[a],
            decreases MDS_T - i,
        {
            let mut any: bool = false;
            let mut j: usize = 0;
            while j < MDS_T
                invariant
                    m.len() >= MDS_T,
                    i < MDS_T,
                    m[i as int].len() >= MDS_T,
                    active.len() == MDS_T,
                    j <= MDS_T,
                    any == (exists|b: int| 0 <= b < j && m@[i as int][b] != 0 && #[trigger] active[b]),
                decreases MDS_T - j,
            {
                if m[i][j] != 0 && active[j] {
                    any = true;
                }
                j += 1;
            }
            next.push(any);
            i += 1;
        }
        proof {
            assert(next@ =~= support_step(m@, active@));
        }
        active = next;
        let mut count: usize = 0;
        let mut k: usize = 0;
        while k < MDS_T
            invariant
                active.len() == MDS_T,
                k <= MDS_T,
                count <= k,
                count as int == count_true(active@, k as int),
            decreases MDS_T - k,
        {
            if active[k] {
                count += 1;
            }
            k += 1;
        }
        out.push(count);
        r += 1;
    }
    out
}

/// One FNV-1a step on a 64-bit state.
pub open spec fn fnv_step(h: u64, x: u32) -> u64 {
    (((h ^ (x as u64)) as nat * 0x100000001b3nat) % 0x1_0000_0000_0000_0000nat) as u64
}

/// FNV-1a over `row[0..n]` from the state `h`.
pub open spec fn fnv_row(h: u64, row: Seq<u32>, n: int) -> u64
    decreases n,
{
    if n <= 0 {
        h
    } else {
        fnv_step(fnv_row(h, row, n - 1), row[n - 1])
    }
}

/// FNV-1a over the rows `0..n`, row by row.
pub open spec fn fnv_rows(m: Seq<Vec<u32>>, n: int) -> u64
    decreases n,
{
    if n <= 0 {
        0xcbf29ce484222325u64
    } else {
        fnv_row(fnv_rows(m, n - 1), m[n - 1]@, m[n - 1].len() as int)
    }
}

/// The FNV-1a fingerprint of the entries, row by row.
pub fn fnv_fingerprint(m: &[Vec<u32>]) -> (h: u64)
    ensures
        h == fnv_rows(m@, m.len() as int),
{
    let mut h: u64 = 0xcbf29ce484222325;
    let mut i: usize = 0;
    while i < m.len()
        invariant
            i <= m.len(),
            h == fnv_rows(m@, i as int),
        decreases m.len() - i,
    {
        let row = &m[i];
        let ghost h0 = h;
        let mut j: usize = 0;
        while j < row.len()
            invariant
                j <= row.len(),
                h == fnv_row(h0, row@, j as int),
            decreases row.len() - j,
        {
            h = (h ^ (row[j] as u64)).wrapping_mul(0x100000001b3);
            j += 1;
        }
        i += 1;
    }
    h
}

/// `3^exp`.
pub fn pow3(exp: usize) -> (r: u128)
    requires
        exp <= 80,
    ensures
        r as int == pow(3, exp as nat),
{
    let mut x: u128 = 1;
    let mut k: usize = 0;
    proof {
        lemma_pow0(3);
    }
    while k < exp
        invariant
            k <= exp <= 80,
            x as int == pow(3, k as nat),
        decreases exp - k,
    {
        proof {
            lemma_pow_increases(k as nat, 79);
            lemma_pow3_79();
            reveal(pow);
        }
        x = x * 3;
        k += 1;
    }
    x
}

/// The value of `3^79`.
proof fn lemma_pow3_79()
    ensures
        pow(3, 79) == 49269609804781974438694403402127765867,
{
    reveal_with_fuel(pow, 80);
}

/// `3^a <= 3^b` for `a <= b`.
pub(crate) proof fn lemma_pow_increases(a: nat, b: nat)
    requires
        a <= b,
    ensures
        pow(3, a) <= pow(3, b),
    decreases b - a,
{
    if a < b {
        lemma_pow_increases(a, (b - 1) as nat);
        lemma_pow_positive(3, (b - 1) as nat);
        reveal(pow);
    }
}

} // verus!
