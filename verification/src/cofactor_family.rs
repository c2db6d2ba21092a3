//! Structured cofactor families for the fixed-cofactor zero-test search, and
//! the probe that measures one cofactor: the eliminant, the shape of its
//! support, its agreement with fresh resultants, its roots in F_p, and the
//! candidates the zero test accepts after back-substitution.
use vstd::prelude::*;

use crate::mds_family::nz_count;
use crate::poly as pl;
use crate::poly_spec::{canon, degree, peval, reduced, rem_spec, trim_spec};
use crate::rootgrid::{
    grid_candidate, grid_guard_agrees, grid_guards_agree, grid_samples, grid_xs, resultant_at_x, residual_polys_at_x,
    sample_resultants,
};
use crate::rootvar::{elim_spec, fp2s_ok, sample_grid, scout_instance};
use crate::zerotest::{fp2_mul_spec, fp2_ok, is_zero_residual, residual_spec, Fp2, SplitMix64, ZT_D};
use crate::{Poseidon1, P};

verus! {

const PU64: u64 = 2130706433;

/// The ways of drawing a cofactor from a seed.
#[derive(Clone, Copy, Debug, PartialEq, Eq, Structural)]
pub enum Family {
    Full,
    Real,
    Imag,
    Monic,
    Constant,
    Linear,
    Top,
    Edges,
    Geometric,
    Ones,
}

/// `a != 0` in F_p^2.
pub open spec fn fp2_nonzero(a: Fp2) -> bool {
    !(a.c0 == 0 && a.c1 == 0)
}

/// `a == 0` in F_p^2.
pub open spec fn fp2_is_zero(a: Fp2) -> bool {
    a.c0 == 0 && a.c1 == 0
}

/// `a == 1` in F_p^2.
pub open spec fn fp2_is_one(a: Fp2) -> bool {
    a.c0 == 1 && a.c1 == 0
}

/// What a family promises of the cofactor it draws.
pub open spec fn family_shape(family: Family, g: Seq<Fp2>) -> bool {
    match family {
        Family::Full => forall|j: int| 0 <= j < 7 ==> fp2_nonzero(#[trigger] g[j]),
        Family::Real => forall|j: int| 0 <= j < 7 ==> (#[trigger] g[j]).c1 == 0 && g[j].c0 != 0,
        Family::Imag => forall|j: int| 0 <= j < 7 ==> (#[trigger] g[j]).c0 == 0 && g[j].c1 != 0,
        Family::Monic => fp2_is_one(g[6]) && forall|j: int| 0 <= j < 6 ==> fp2_nonzero(#[trigger] g[j]),
        Family::Constant => fp2_nonzero(g[0]) && forall|j: int| 1 <= j < 7 ==> fp2_is_zero(#[trigger] g[j]),
        Family::Linear => fp2_nonzero(g[0]) && fp2_nonzero(g[1]) && forall|j: int| 2 <= j < 7 ==> fp2_is_zero(#[trigger] g[j]),
        Family::Top => fp2_nonzero(g[6]) && forall|j: int| 0 <= j < 6 ==> fp2_is_zero(#[trigger] g[j]),
        Family::Edges => fp2_nonzero(g[0]) && fp2_nonzero(g[6]) && forall|j: int| 1 <= j < 6 ==> fp2_is_zero(#[trigger] g[j]),
        Family::Geometric => fp2_nonzero(g[0]) && exists|q: Fp2|
            fp2_ok(q) && fp2_nonzero(q) && forall|j: int| 0 <= j < 6 ==> g[j + 1] == fp2_mul_spec(#[trigger] g[j], q),
        Family::Ones => forall|j: int| 0 <= j < 7 ==> fp2_is_one(#[trigger] g[j]),
    }
}

/// The position of a family in the list of families.
pub open spec fn family_index(f: Family) -> int {
    match f {
        Family::Full => 0,
        Family::Real => 1,
        Family::Imag => 2,
        Family::Monic => 3,
        Family::Constant => 4,
        Family::Linear => 5,
        Family::Top => 6,
        Family::Edges => 7,
        Family::Geometric => 8,
        Family::Ones => 9,
    }
}

/// The seed of case `seed_idx` of a family at `rf`, `rp` rounds.
pub open spec fn family_seed_spec(rf: int, rp: int, f: Family, seed_idx: int) -> int {
    0xC0FA_0000 + rf * 0x100_0000 + rp * 0x1_0000 + family_index(f) * 0x100 + seed_idx
}

/// The seed of case `seed_idx` of a family at `rf`, `rp` rounds.
pub fn family_seed(rf: usize, rp: usize, family: Family, seed_idx: usize) -> (s: u64)
    requires
        rf < 0x1_0000_0000,
        rp < 0x1_0000_0000,
        seed_idx < 0x1_0000_0000,
    ensures
        s as int == family_seed_spec(rf as int, rp as int, family, seed_idx as int),
{
    let idx: u64 = match family {
        Family::Full => 0,
        Family::Real => 1,
        Family::Imag => 2,
        Family::Monic => 3,
        Family::Constant => 4,
        Family::Linear => 5,
        Family::Top => 6,
        Family::Edges => 7,
        Family::Geometric => 8,
        Family::Ones => 9,
    };
    0xC0FA_0000u64 + (rf as u64) * 0x100_0000 + (rp as u64) * 0x1_0000 + idx * 0x100 + seed_idx as u64
}

/// A field element drawn from `1..P`.
fn field_nz(rng: &mut SplitMix64) -> (r: u32)
    ensures
        final(rng).0 == crate::poly::splitmix_advance(old(rng).0),
        r as int == 1 + (crate::poly::splitmix_mix(crate::poly::splitmix_advance(old(rng).0)) as int) % (P as int - 1),
        1 <= r < P,
{
    let z: u64 = rng.next();
    (1 + z % (PU64 - 1)) as u32
}

/// The `j`-th draw from `1..P` of the stream `s`, from zero.
pub open spec fn nonzero_field_draw(s: u64, j: nat) -> u32 {
    (1 + (crate::poly::splitmix_mix(crate::mds_family::splitmix_state(s, j + 1)) as int) % (P as int - 1)) as u32
}

/// `a q^j` in F_p^2.
pub open spec fn geometric_term(a: Fp2, q: Fp2, j: nat) -> Fp2
    decreases j,
{
    if j == 0 {
        a
    } else {
        fp2_mul_spec(geometric_term(a, q, (j - 1) as nat), q)
    }
}

/// Coefficient `j` of the cofactor a family draws from a seed.
pub open spec fn family_coef(family: Family, seed: u64, j: int) -> Fp2 {
    let z = Fp2 { c0: 0, c1: 0 };
    let one = Fp2 { c0: 1, c1: 0 };
    let nz = |k: int| crate::zerotest::nz_elem(seed, k as nat);
    match family {
        Family::Full => nz(j),
        Family::Real => Fp2 { c0: nonzero_field_draw(seed, j as nat), c1: 0 },
        Family::Imag => Fp2 { c0: 0, c1: nonzero_field_draw(seed, j as nat) },
        Family::Monic => if j < 6 { nz(j) } else { one },
        Family::Constant => if j == 0 { nz(0) } else { z },
        Family::Linear => if j < 2 { nz(j) } else { z },
        Family::Top => if j == 6 { nz(0) } else { z },
        Family::Edges => if j == 0 { nz(0) } else if j == 6 { nz(1) } else { z },
        Family::Geometric => geometric_term(nz(0), nz(1), j as nat),
        Family::Ones => one,
    }
}

/// The cofactor of a family for a seed.
pub fn cofactor(family: Family, seed: u64) -> (g: [Fp2; 7])
    ensures
        fp2s_ok(g@),
        family_shape(family, g@),
        forall|j: int| 0 <= j < 7 ==> #[trigger] g@[j] == family_coef(family, seed, j),
{
    let mut rng = SplitMix64::new(seed);
    let mut g = [Fp2 { c0: 0, c1: 0 }; 7];
    match family {
        Family::Full | Family::Real | Family::Imag | Family::Monic => {
            let n: usize = if family == Family::Monic { ZT_D - 1 } else { ZT_D };
            let mut j: usize = 0;
            while j < n
                invariant
                    n <= 7,
                    family == Family::Monic ==> n == 6,
                    family != Family::Monic ==> n == 7,
                    family == Family::Full || family == Family::Real || family == Family::Imag || family == Family::Monic,
                    j <= n,
                    forall|k: int| 0 <= k < 7 ==> #[trigger] fp2_ok(g@[k]),
                    forall|k: int| 0 <= k < j ==> fp2_nonzero(#[trigger] g@[k]),
                    family == Family::Real ==> forall|k: int| 0 <= k < j ==> (#[trigger] g@[k]).c1 == 0,
                    family == Family::Imag ==> forall|k: int| 0 <= k < j ==> (#[trigger] g@[k]).c0 == 0,
                    (family == Family::Real || family == Family::Imag) ==> rng.0 == crate::mds_family::splitmix_state(seed, j as nat),
                    !(family == Family::Real || family == Family::Imag) ==> rng.0 == crate::zerotest::nz_state(seed, j as nat),
                    forall|k: int| 0 <= k < j ==> #[trigger] g@[k] == family_coef(family, seed, k),
                    forall|k: int| j <= k < 7 ==> #[trigger] g@[k] == (Fp2 { c0: 0, c1: 0 }),
                decreases n - j,
            {
                let v: Fp2 = match family {
                    Family::Real => {
                        let a: u32 = field_nz(&mut rng);
                        Fp2 { c0: a, c1: 0 }
                    },
                    Family::Imag => {
                        let a: u32 = field_nz(&mut rng);
                        Fp2 { c0: 0, c1: a }
                    },
                    _ => rng.fp2_nonzero(),
                };
                proof {
                    if family == Family::Real || family == Family::Imag {
                        assert(crate::mds_family::splitmix_state(seed, (j + 1) as nat)
                            == crate::poly::splitmix_advance(crate::mds_family::splitmix_state(seed, j as nat)));
                    }
                }
                g[j] = v;
                j += 1;
            }
            if family == Family::Monic {
                g[ZT_D - 1] = Fp2 { c0: 1, c1: 0 };
            }
        },
        Family::Constant => {
            g[0] = rng.fp2_nonzero();
        },
        Family::Linear => {
            g[0] = rng.fp2_nonzero();
            proof {
                assert(crate::zerotest::nz_state(seed, 1) == crate::zerotest::fp2_nonzero_draw(seed, 0).1) by {
                    reveal_with_fuel(crate::zerotest::nz_state, 2);
                }
            }
            g[1] = rng.fp2_nonzero();
        },
        Family::Top => {
            g[ZT_D - 1] = rng.fp2_nonzero();
        },
        Family::Edges => {
            g[0] = rng.fp2_nonzero();
            proof {
                assert(crate::zerotest::nz_state(seed, 1) == crate::zerotest::fp2_nonzero_draw(seed, 0).1) by {
                    reveal_with_fuel(crate::zerotest::nz_state, 2);
                }
            }
            g[ZT_D - 1] = rng.fp2_nonzero();
        },
        Family::Geometric => {
            let a: Fp2 = rng.fp2_nonzero();
            let q: Fp2 = rng.fp2_nonzero();
            proof {
                assert(crate::zerotest::nz_state(seed, 1) == crate::zerotest::fp2_nonzero_draw(seed, 0).1) by {
                    reveal_with_fuel(crate::zerotest::nz_state, 2);
                }
            }
            let mut cur: Fp2 = a;
            let mut j: usize = 0;
            while j < ZT_D
                invariant
                    j <= 7,
                    fp2_ok(a) && fp2_nonzero(a),
                    fp2_ok(q) && fp2_nonzero(q),
                    fp2_ok(cur),
                    j == 0 ==> cur == a,
                    j > 0 ==> cur == fp2_mul_spec(g@[j - 1], q),
                    j > 0 ==> g@[0] == a,
                    forall|k: int| 0 <= k < 7 ==> #[trigger] fp2_ok(g@[k]),
                    forall|k: int| 0 <= k < j - 1 ==> g@[k + 1] == fp2_mul_spec(#[trigger] g@[k], q),
                a == crate::zerotest::nz_elem(seed, 0),
                    q == crate::zerotest::nz_elem(seed, 1),
                    cur == geometric_term(a, q, j as nat),
                    forall|k: int| 0 <= k < j ==> #[trigger] g@[k] == geometric_term(a, q, k as nat),
                decreases 7 - j,
            {
                g[j] = cur;
                cur = cur.mul(q);
                j += 1;
            }
            proof {
                assert(forall|k: int| 0 <= k < 6 ==> g@[k + 1] == fp2_mul_spec(#[trigger] g@[k], q));
            }
        },
        Family::Ones => {
            let mut j: usize = 0;
            while j < ZT_D
                invariant
                    j <= 7,
                    forall|k: int| 0 <= k < 7 ==> #[trigger] fp2_ok(g@[k]),
                    forall|k: int| 0 <= k < j ==> fp2_is_one(#[trigger] g@[k]),
                decreases 7 - j,
            {
                g[j] = Fp2 { c0: 1, c1: 0 };
                j += 1;
            }
        },
    }
    g
}

/// Greatest common divisor by Euclid's remainders.
pub open spec fn gcd_spec(a: nat, b: nat) -> nat
    decreases b,
{
    if b == 0 {
        a
    } else {
        gcd_spec(b, a % b)
    }
}

/// Greatest common divisor of two counts.
pub fn gcd_usize(a: usize, b: usize) -> (r: usize)
    ensures
        r == gcd_spec(a as nat, b as nat),
{
    let mut a: usize = a;
    let mut b: usize = b;
    let ghost target = gcd_spec(a as nat, b as nat);
    while b != 0
        invariant
            gcd_spec(a as nat, b as nat) == target,
        decreases b,
    {
        let r: usize = a % b;
        a = b;
        b = r;
    }
    a
}

/// The index of the first nonzero entry of `f[0..n]`.
pub open spec fn first_nonzero(f: Seq<u32>, n: int) -> Option<int>
    decreases n,
{
    if n <= 0 {
        None
    } else {
        match first_nonzero(f, n - 1) {
            Some(b) => Some(b),
            None => if f[n - 1] != 0 {
                Some(n - 1)
            } else {
                None
            },
        }
    }
}

/// The gcd of the gaps between the first nonzero entry of `f[0..n]` and the
/// later ones (zero when there are fewer than two).
pub open spec fn support_gcd(f: Seq<u32>, n: int) -> nat
    decreases n,
{
    if n <= 0 {
        0
    } else {
        match first_nonzero(f, n - 1) {
            Some(b) => if f[n - 1] != 0 {
                gcd_spec(support_gcd(f, n - 1), (n - 1 - b) as nat)
            } else {
                support_gcd(f, n - 1)
            },
            None => support_gcd(f, n - 1),
        }
    }
}

/// The support of a coefficient vector: how many entries are nonzero, the
/// first nonzero index, and the gcd of the gaps from it.
#[derive(Clone, Copy, Debug, PartialEq, Eq, Structural)]
pub struct PolyShape {
    pub nonzero: usize,
    pub valuation: usize,
    pub support_gcd: usize,
}

proof fn lemma_first_nonzero_range(f: Seq<u32>, n: int)
    requires
        0 <= n,
    ensures
        first_nonzero(f, n) matches Some(b) ==> 0 <= b < n && f[b] != 0,
    decreases n,
{
    if n > 0 {
        lemma_first_nonzero_range(f, n - 1);
    }
}

/// The support shape of `f`.
pub fn poly_shape(f: &[u32]) -> (s: PolyShape)
    ensures
        s.nonzero == nz_count(f@, f.len() as int),
        s.valuation == (match first_nonzero(f@, f.len() as int) {
            Some(b) => b,
            None => 0,
        }),
        s.support_gcd == support_gcd(f@, f.len() as int),
{
    let mut nonzero: usize = 0;
    let mut first: Option<usize> = None;
    let mut gcd: usize = 0;
    let mut i: usize = 0;
    while i < f.len()
        invariant
            i <= f.len(),
            nonzero <= i,
            nonzero == nz_count(f@, i as int),
            (match first {
                Some(b) => first_nonzero(f@, i as int) == Some(b as int),
                None => first_nonzero(f@, i as int) is None,
            }),
            gcd == support_gcd(f@, i as int),
        decreases f.len() - i,
    {
        proof {
            lemma_first_nonzero_range(f@, i as int);
        }
        if f[i] != 0 {
            nonzero += 1;
            match first {
                Some(base) => {
                    gcd = gcd_usize(gcd, i - base);
                },
                None => {
                    first = Some(i);
                },
            }
        }
        i += 1;
    }
    let valuation: usize = match first {
        Some(b) => b,
        None => 0,
    };
    PolyShape { nonzero, valuation, support_gcd: gcd }
}

/// The eliminant of a cofactor: the resultants at `x = 1, ..., degree + 1`,
/// interpolated.
pub fn eliminant(pos: &Poseidon1, cofactor: &[Fp2; 7], degree: usize) -> (e: pl::Poly)
    requires
        scout_instance(pos),
        fp2s_ok(cofactor@),
        degree < 8388600,
    ensures
        e@ == elim_spec(grid_xs(degree + 1), grid_samples(pos, cofactor@, degree + 1)),
        canon(e@),
        e.len() <= degree + 1,
{
    let n = degree + 1;
    let xs = sample_grid(n);
    let ys = sample_resultants(pos, cofactor, &xs);
    proof {
        assert(xs@ =~= grid_xs(n as int));
        assert forall|i: int| 0 <= i < n implies #[trigger] ys@[i] == grid_samples(pos, cofactor@, n as int)[i] by {
            assert(xs[i] == i + 1);
        }
        assert(ys@ =~= grid_samples(pos, cofactor@, n as int));
    }
    pl::interpolate(&xs, &ys)
}

/// Whether the eliminant agrees with fresh resultants at `from, ..., from + count - 1`.
pub fn guards_stable(pos: &Poseidon1, cofactor: &[Fp2; 7], e: &[u32], from: usize, count: usize) -> (r: bool)
    requires
        scout_instance(pos),
        fp2s_ok(cofactor@),
        canon(e@),
        from + count <= P,
    ensures
        r == grid_guards_agree(pos, cofactor@, e@, from as int, count as int),
{
    let mut stable: bool = true;
    let mut g: usize = 0;
    while g < count
        invariant
            scout_instance(pos),
            fp2s_ok(cofactor@),
            canon(e@),
            from + count <= P,
            g <= count,
            stable == grid_guards_agree(pos, cofactor@, e@, from as int, g as int),
        decreases count - g,
    {
        let x: u32 = (from + g) as u32;
        let v: u32 = pl::eval(e, x);
        let w: u32 = resultant_at_x(pos, cofactor, x);
        proof {
            assert(grid_guard_agrees(pos, cofactor@, e@, from + g) == (v == w));
            if stable && v == w {
                assert forall|h: int| 0 <= h < g + 1 implies #[trigger] grid_guard_agrees(pos, cofactor@, e@, from + h) by {}
            }
        }
        if v != w {
            stable = false;
        }
        g += 1;
    }
    stable
}

/// `y` is a common root of the residual pair at `x` (not both zero), and the
/// candidate of the root `x + y s` passes the zero test.
pub open spec fn accepted_at(pos: &Poseidon1, g: Seq<Fp2>, x: u32, y: u32) -> bool {
    let f = crate::rootgrid::grid_residual_spec(pos, g, x);
    &&& y < P
    &&& !(trim_spec(f.0).len() == 0 && trim_spec(f.1).len() == 0)
    &&& peval(f.0, y as int) % crate::field::modulus() == 0
    &&& peval(f.1, y as int) % crate::field::modulus() == 0
    &&& is_zero_residual(residual_spec(pos, grid_candidate(x, y, g)))
}

/// No root among `xs[0..i]` has an accepted `y`.
pub open spec fn none_before(pos: &Poseidon1, g: Seq<Fp2>, xs: Seq<u32>, i: int) -> bool {
    forall|i2: int, y: u32| 0 <= i2 < i ==> !#[trigger] accepted_at(pos, g, xs[i2], y)
}

/// `root` is the first accepted pair: at the first root `x` with an
/// accepted `y`, and the least such `y`.
pub open spec fn is_first_accepted(pos: &Poseidon1, g: Seq<Fp2>, xs: Seq<u32>, root: Fp2) -> bool {
    exists|i: int|
        0 <= i < xs.len() && #[trigger] xs[i] == root.c0 && none_before(pos, g, xs, i) && accepted_at(pos, g, root.c0, root.c1)
            && forall|y: u32| y < root.c1 ==> !#[trigger] accepted_at(pos, g, root.c0, y)
}

/// The `y` accepted at `x`.
pub open spec fn accepted_ys(pos: &Poseidon1, g: Seq<Fp2>, x: u32) -> Set<u32> {
    Set::new(|y: u32| accepted_at(pos, g, x, y))
}

/// The accepted pairs `(i, y)`: `i < n` and `y` accepted at `xs[i]`.
pub open spec fn accepted_pairs(pos: &Poseidon1, g: Seq<Fp2>, xs: Seq<u32>, n: int) -> Set<(int, u32)> {
    Set::new(|q: (int, u32)| 0 <= q.0 < n && accepted_at(pos, g, xs[q.0], q.1))
}

/// The number of accepted `y` at each of `xs[0..n]`, summed.
pub open spec fn accepted_count(pos: &Poseidon1, g: Seq<Fp2>, xs: Seq<u32>, n: int) -> int
    decreases n,
{
    if n <= 0 {
        0
    } else {
        accepted_count(pos, g, xs, n - 1) + accepted_ys(pos, g, xs[n - 1]).len()
    }
}

/// Only `y < p` is ever accepted, so the accepted `y` at `x` are finitely many.
pub proof fn lemma_accepted_ys_finite(pos: &Poseidon1, g: Seq<Fp2>, x: u32)
    ensures
        accepted_ys(pos, g, x).finite(),
{
    vstd::set_lib::range_set_properties::<u32>(0, P);
    assert(accepted_ys(pos, g, x).subset_of(Set::<u32>::range(0, P)));
    vstd::set_lib::lemma_set_subset_finite(Set::<u32>::range(0, P), accepted_ys(pos, g, x));
}

/// Back-substitution counts every accepted pair: the number of pairs
/// `(i, y)` with `i < n` and `y` a common root of the residual pair at
/// `xs[i]` whose candidate the zero test accepts is the sum over `i` of the
/// number of accepted `y` at `xs[i]`.
pub proof fn law_accepted_count_is_pairs(pos: &Poseidon1, g: Seq<Fp2>, xs: Seq<u32>, n: int)
    requires
        0 <= n <= xs.len(),
    ensures
        accepted_pairs(pos, g, xs, n).finite(),
        accepted_pairs(pos, g, xs, n).len() == accepted_count(pos, g, xs, n),
        accepted_count(pos, g, xs, n) >= 0,
    decreases n,
{
    if n == 0 {
        assert(accepted_pairs(pos, g, xs, 0) =~= Set::<(int, u32)>::empty());
    } else {
        law_accepted_count_is_pairs(pos, g, xs, n - 1);
        let prev = accepted_pairs(pos, g, xs, n - 1);
        let ys = accepted_ys(pos, g, xs[n - 1]);
        lemma_accepted_ys_finite(pos, g, xs[n - 1]);
        let f = |y: u32| (n - 1, y);
        let row = ys.map(f);
        assert(vstd::relations::injective_on(f, ys)) by {
            assert forall|a: u32, b: u32| ys.contains(a) && ys.contains(b) && #[trigger] f(a) == #[trigger] f(b) implies a == b by {}
        }
        vstd::set_lib::lemma_map_size(ys, row, f);
        assert(accepted_pairs(pos, g, xs, n) =~= prev + row) by {
            assert forall|q: (int, u32)| #[trigger] accepted_pairs(pos, g, xs, n).contains(q) implies (prev + row).contains(q) by {
                if q.0 == n - 1 {
                    assert(ys.contains(q.1));
                    assert(f(q.1) == q);
                }
            }
            assert forall|q: (int, u32)| #[trigger] (prev + row).contains(q) implies accepted_pairs(pos, g, xs, n).contains(q) by {
                if row.contains(q) {
                    let y = choose|y: u32| ys.contains(y) && f(y) == q;
                }
            }
        }
        assert(prev.disjoint(row)) by {
            assert forall|q: (int, u32)| !(prev.contains(q) && row.contains(q)) by {
                if row.contains(q) {
                    let y = choose|y: u32| ys.contains(y) && f(y) == q;
                }
            }
        }
        vstd::set_lib::lemma_set_disjoint_lens(prev, row);
    }
}

/// A saturating sum of saturated counts saturates the sum.
proof fn lemma_saturated_sum(t: int, c: int, a: int, b: int)
    requires
        t >= 0,
        c >= 0,
        a == crate::rootvar::saturated(t),
        b == crate::rootvar::saturated(c),
    ensures
        0 <= a <= usize::MAX,
        0 <= b <= usize::MAX,
        (if a > usize::MAX - b { usize::MAX as int } else { a + b }) == crate::rootvar::saturated(t + c),
{
    reveal(crate::rootvar::saturated);
}

/// One more on a saturated count.
proof fn lemma_saturated_inc(t: int, a: int)
    requires
        t >= 0,
        a == crate::rootvar::saturated(t),
    ensures
        0 <= a <= usize::MAX,
        (if a < usize::MAX { a + 1 } else { a }) == crate::rootvar::saturated(t + 1),
{
    reveal(crate::rootvar::saturated);
}

/// Nothing counted yet.
proof fn lemma_saturated_zero()
    ensures
        crate::rootvar::saturated(0) == 0,
{
    reveal(crate::rootvar::saturated);
}

/// A strictly increasing sequence listing exactly the elements of a set is
/// as long as the set.
proof fn lemma_sorted_list_len(s: Seq<u32>, a: Set<u32>)
    requires
        crate::poly::strictly_increasing(s),
        forall|y: u32| #![trigger s.contains(y)] #![trigger a.contains(y)] s.contains(y) == a.contains(y),
    ensures
        s.len() == a.len(),
{
    assert(s.no_duplicates()) by {
        assert forall|i: int, j: int| 0 <= i < s.len() && 0 <= j < s.len() && i != j implies s[i] != s[j] by {
            if i < j {
                assert(s[i] < s[j]);
            } else {
                assert(s[j] < s[i]);
            }
        }
    }
    s.unique_seq_to_set();
    assert(s.to_set() =~= a);
}

/// The candidates at one root `x`: each common root `y` of the residual pair,
/// in increasing order. Returns how many the zero test accepts (saturating)
/// and the least accepted `y` with its candidate.
#[verifier::rlimit(100)]
fn back_substitute_at(pos: &Poseidon1, cofactor: &[Fp2; 7], x: u32) -> (r: (usize, Option<(u32, [u32; 16])>))
    requires
        scout_instance(pos),
        fp2s_ok(cofactor@),
        x < P,
    ensures
        (r.0 == 0) <==> (r.1 is None),
        (r.1 is None) <==> (forall|y: u32| !#[trigger] accepted_at(pos, cofactor@, x, y)),
        r.1 matches Some((y, p_hat)) ==> {
            &&& accepted_at(pos, cofactor@, x, y)
            &&& forall|y2: u32| y2 < y ==> !#[trigger] accepted_at(pos, cofactor@, x, y2)
            &&& p_hat@ == grid_candidate(x, y, cofactor@)
        },
        r.0 as int == crate::rootvar::saturated(accepted_ys(pos, cofactor@, x).len() as int),
{
    proof {
        vstd::arithmetic::power::lemma_pow_positive(3, (pos.r_f + pos.r_p) as nat);
    }
    let (f0, f1) = residual_polys_at_x(pos, cofactor, x);
    let gg = pl::gcd(&f0, &f1);
    let ys_here = pl::roots(&gg);
    proof {
        // the roots of the gcd are exactly the common roots
        assert forall|y: u32| #![trigger accepted_at(pos, cofactor@, x, y)] accepted_at(pos, cofactor@, x, y) implies ys_here@.contains(y) by {
            crate::poly_divides::lemma_common_root(f0@, f1@, gg@, y as int);
            if gg.len() == 0 {
                assert(gg@ =~= Seq::<u32>::empty());
                crate::poly_divides::lemma_divided_by_zero(f0@);
                crate::poly_divides::lemma_divided_by_zero(f1@);
            }
            crate::poly_spec::lemma_trim_canon(gg@);
        }
        assert forall|j: int| 0 <= j < ys_here.len() implies
            peval(f0@, #[trigger] ys_here@[j] as int) % crate::field::modulus() == 0
            && peval(f1@, ys_here@[j] as int) % crate::field::modulus() == 0
            && !(trim_spec(f0@).len() == 0 && trim_spec(f1@).len() == 0) by {
            crate::poly_divides::lemma_root_of_multiple(gg@, f0@, ys_here@[j] as int);
            crate::poly_divides::lemma_root_of_multiple(gg@, f1@, ys_here@[j] as int);
            if trim_spec(f0@).len() == 0 && trim_spec(f1@).len() == 0 {
                lemma_gcd_of_zeros(f0@, f1@);
            }
        }
    }
    let mut accepted: usize = 0;
    let mut first: Option<(u32, [u32; 16])> = None;
    let ghost mut acc_list: Seq<u32> = Seq::empty();
    proof {
        lemma_saturated_zero();
    }
    let mut k: usize = 0;
    while k < ys_here.len()
        invariant
            scout_instance(pos),
            fp2s_ok(cofactor@),
            x < P,
            k <= ys_here.len(),
            crate::poly::strictly_increasing(acc_list),
            forall|j: int| 0 <= j < acc_list.len() ==> accepted_at(pos, cofactor@, x, #[trigger] acc_list[j]),
            forall|t: u32| #[trigger] acc_list.contains(t) ==> exists|m: int| 0 <= m < k && ys_here@[m] == t,
            forall|j: int| 0 <= j < k && accepted_at(pos, cofactor@, x, #[trigger] ys_here@[j]) ==> acc_list.contains(ys_here@[j]),
            accepted as int == crate::rootvar::saturated(acc_list.len() as int),
            forall|j: int| 0 <= j < ys_here.len() ==> #[trigger] ys_here[j] < P,
            crate::poly::strictly_increasing(ys_here@),
            forall|y: u32| #![trigger accepted_at(pos, cofactor@, x, y)] accepted_at(pos, cofactor@, x, y) ==> ys_here@.contains(y),
            forall|j: int| 0 <= j < ys_here.len() ==>
                peval(f0@, #[trigger] ys_here@[j] as int) % crate::field::modulus() == 0
                && peval(f1@, ys_here@[j] as int) % crate::field::modulus() == 0
                && !(trim_spec(f0@).len() == 0 && trim_spec(f1@).len() == 0),
            (f0@, f1@) == crate::rootgrid::grid_residual_spec(pos, cofactor@, x),
            (accepted == 0) <==> (first is None),
            first is None ==> forall|j: int| 0 <= j < k ==> !accepted_at(pos, cofactor@, x, #[trigger] ys_here@[j]),
            first matches Some((y, p_hat)) ==> {
                &&& accepted_at(pos, cofactor@, x, y)
                &&& forall|y2: u32| y2 < y ==> !#[trigger] accepted_at(pos, cofactor@, x, y2)
                &&& p_hat@ == grid_candidate(x, y, cofactor@)
            },
        decreases ys_here.len() - k,
    {
        let y: u32 = ys_here[k];
        proof {
            assert(ys_here[k as int] < P);
        }
        let root = Fp2 { c0: x, c1: y };
        let coeffs = crate::zerotest::root_first_coeffs(root, cofactor);
        let p_hat = crate::zerotest::flatten_coeffs(&coeffs);
        let pass = crate::zerotest::verify_zerotest(pos, &p_hat);
        proof {
            assert(ys_here@[k as int] == y);
            assert(pass == accepted_at(pos, cofactor@, x, y));
        }
        proof {
            lemma_saturated_inc(acc_list.len() as int, accepted as int);
        }
        if pass {
            if accepted < usize::MAX {
                accepted += 1;
            }
            proof {
                let old_list = acc_list;
                acc_list = acc_list.push(y);
                assert forall|j1: int, j2: int| 0 <= j1 < j2 < acc_list.len() implies acc_list[j1] < acc_list[j2] by {
                    if j2 == old_list.len() {
                        assert(old_list.contains(acc_list[j1]));
                        let m = choose|m: int| 0 <= m < k && ys_here@[m] == acc_list[j1];
                        assert(ys_here@[m] < ys_here@[k as int]);
                    }
                }
                assert forall|t: u32| #[trigger] acc_list.contains(t) implies exists|m: int| 0 <= m < k + 1 && ys_here@[m] == t by {
                    if t != y {
                        let j = choose|j: int| 0 <= j < acc_list.len() && acc_list[j] == t;
                        assert(old_list[j] == t);
                        assert(old_list.contains(t));
                    } else {
                        assert(ys_here@[k as int] == t);
                    }
                }
                assert forall|j: int| 0 <= j < k + 1 && accepted_at(pos, cofactor@, x, #[trigger] ys_here@[j]) implies acc_list.contains(ys_here@[j]) by {
                    if j < k {
                        let j3 = choose|j3: int| 0 <= j3 < old_list.len() && old_list[j3] == ys_here@[j];
                        assert(acc_list[j3] == ys_here@[j]);
                    } else {
                        assert(acc_list[old_list.len() as int] == y);
                    }
                }
            }
            if first.is_none() {
                proof {
                    assert forall|y2: u32| y2 < y implies !#[trigger] accepted_at(pos, cofactor@, x, y2) by {
                        if accepted_at(pos, cofactor@, x, y2) {
                            let j = choose|j: int| 0 <= j < ys_here.len() && ys_here@[j] == y2;
                            if j >= k {
                                assert(ys_here@[k as int] <= ys_here@[j]);
                            }
                        }
                    }
                }
                first = Some((y, p_hat));
            }
        }
        proof {
            assert forall|t: u32| #[trigger] acc_list.contains(t) implies exists|m: int| 0 <= m < k + 1 && ys_here@[m] == t by {
                let m = choose|m: int| 0 <= m < k && ys_here@[m] == t;
            }
        }
        k += 1;
    }
    proof {
        if first is None {
            assert forall|y2: u32| !#[trigger] accepted_at(pos, cofactor@, x, y2) by {
                if accepted_at(pos, cofactor@, x, y2) {
                    let j = choose|j: int| 0 <= j < ys_here.len() && ys_here@[j] == y2;
                    assert(!accepted_at(pos, cofactor@, x, ys_here@[j]));
                }
            }
        }
        assert forall|t: u32| #![trigger acc_list.contains(t)] #![trigger accepted_ys(pos, cofactor@, x).contains(t)]
            acc_list.contains(t) == accepted_ys(pos, cofactor@, x).contains(t) by {
            if acc_list.contains(t) {
                let j = choose|j: int| 0 <= j < acc_list.len() && acc_list[j] == t;
                assert(accepted_at(pos, cofactor@, x, acc_list[j]));
            }
            if accepted_at(pos, cofactor@, x, t) {
                let j = choose|j: int| 0 <= j < ys_here.len() && ys_here@[j] == t;
                assert(accepted_at(pos, cofactor@, x, ys_here@[j]));
            }
        }
        lemma_sorted_list_len(acc_list, accepted_ys(pos, cofactor@, x));
    }
    (accepted, first)
}

/// The candidates of a root `x + y s` that the zero test accepts: each root
/// `x` given, and each common root `y` of the residual pair at `x`. Returns
/// how many were accepted (saturating) and the first, in the order of
/// `x_roots` and then of increasing `y`.
pub fn back_substitute(pos: &Poseidon1, cofactor: &[Fp2; 7], x_roots: &[u32]) -> (r: (usize, Option<(Fp2, [u32; 16])>))
    requires
        scout_instance(pos),
        fp2s_ok(cofactor@),
        forall|i: int| 0 <= i < x_roots.len() ==> #[trigger] x_roots[i] < P,
    ensures
        (r.0 == 0) <==> (r.1 is None),
        (r.1 is None) <==> none_before(pos, cofactor@, x_roots@, x_roots.len() as int),
        r.1 matches Some((root, p_hat)) ==> {
            &&& x_roots@.contains(root.c0)
            &&& fp2_ok(root)
            &&& p_hat@ == grid_candidate(root.c0, root.c1, cofactor@)
            &&& is_zero_residual(residual_spec(pos, p_hat@))
            &&& is_first_accepted(pos, cofactor@, x_roots@, root)
        },
        r.0 as int == crate::rootvar::saturated(accepted_count(pos, cofactor@, x_roots@, x_roots.len() as int)),
{
    let mut accepted: usize = 0;
    let mut first: Option<(Fp2, [u32; 16])> = None;
    proof {
        lemma_saturated_zero();
    }
    let mut i: usize = 0;
    while i < x_roots.len()
        invariant
            scout_instance(pos),
            fp2s_ok(cofactor@),
            forall|k: int| 0 <= k < x_roots.len() ==> #[trigger] x_roots[k] < P,
            i <= x_roots.len(),
            (accepted == 0) <==> (first is None),
            accepted as int == crate::rootvar::saturated(accepted_count(pos, cofactor@, x_roots@, i as int)),
            first is None ==> none_before(pos, cofactor@, x_roots@, i as int),
            first matches Some((root, p_hat)) ==> {
                &&& x_roots@.contains(root.c0)
                &&& fp2_ok(root)
                &&& p_hat@ == grid_candidate(root.c0, root.c1, cofactor@)
                &&& is_zero_residual(residual_spec(pos, p_hat@))
                &&& is_first_accepted(pos, cofactor@, x_roots@, root)
            },
        decreases x_roots.len() - i,
    {
        let x: u32 = x_roots[i];
        proof {
            assert(x_roots[i as int] < P);
        }
        let (n, here) = back_substitute_at(pos, cofactor, x);
        proof {
            law_accepted_count_is_pairs(pos, cofactor@, x_roots@, i as int);
            assert(x_roots@[i as int] == x);
            assert(accepted_count(pos, cofactor@, x_roots@, i + 1)
                == accepted_count(pos, cofactor@, x_roots@, i as int) + accepted_ys(pos, cofactor@, x).len());
            lemma_saturated_sum(accepted_count(pos, cofactor@, x_roots@, i as int), accepted_ys(pos, cofactor@, x).len() as int,
                accepted as int, n as int);
        }
        accepted = if accepted > usize::MAX - n { usize::MAX } else { accepted + n };
        match here {
            Some((y, p_hat)) => {
                if first.is_none() {
                    let root = Fp2 { c0: x, c1: y };
                    proof {
                        assert(x_roots@[i as int] == x);
                        assert(is_first_accepted(pos, cofactor@, x_roots@, root));
                    }
                    first = Some((root, p_hat));
                }
            },
            None => {
                proof {
                    if first is None {
                        assert forall|i2: int, y2: u32| 0 <= i2 < i + 1 implies !#[trigger] accepted_at(pos, cofactor@, x_roots@[i2], y2) by {
                            if i2 == i {
                                assert(x_roots@[i2] == x);
                            }
                        }
                    }
                }
            },
        }
        i += 1;
    }
    (accepted, first)
}

/// The gcd of two zero polynomials is zero.
proof fn lemma_gcd_of_zeros(a: Seq<u32>, b: Seq<u32>)
    requires
        trim_spec(a).len() == 0,
        trim_spec(b).len() == 0,
    ensures
        crate::poly_spec::gcd_spec(a, b).len() == 0,
{
    assert(crate::poly_spec::euclid(trim_spec(a), trim_spec(b)) == trim_spec(a));
}

/// What a probe of one cofactor found.
#[derive(Clone, Copy, Debug)]
pub struct ProbeReport {
    pub elim_degree: i64,
    pub x_roots: usize,
    pub accepted: usize,
    /// The eliminant agreed with fresh resultants at four further points.
    pub stable: bool,
    pub shape: PolyShape,
    pub first_root: Option<Fp2>,
    pub first_p_hat: Option<[u32; 16]>,
}

/// Probes one cofactor: the eliminant through `degree + 1` samples, its
/// shape, four guard points after the samples, its roots in F_p, and the
/// back-substituted candidates that the zero test accepts.
pub fn probe(pos: &Poseidon1, cofactor: &[Fp2; 7], degree: usize) -> (rep: ProbeReport)
    requires
        scout_instance(pos),
        fp2s_ok(cofactor@),
        degree < 8388600,
    ensures
        ({
            let e = elim_spec(grid_xs(degree + 1), grid_samples(pos, cofactor@, degree + 1));
            &&& rep.elim_degree == crate::poly_spec::degree(e)
            &&& rep.stable == grid_guards_agree(pos, cofactor@, e, degree + 2, 4)
            &&& rep.shape.nonzero == nz_count(e, e.len() as int)
            &&& rep.shape.support_gcd == support_gcd(e, e.len() as int)
            &&& rep.accepted as int == crate::rootvar::saturated(accepted_count(pos, cofactor@, pl::sorted_roots(e), pl::sorted_roots(e).len() as int))
        }),
        (rep.accepted == 0) <==> (rep.first_root is None),
        rep.first_root is Some <==> rep.first_p_hat is Some,
        rep.first_root matches Some(root) ==> {
            let e = elim_spec(grid_xs(degree + 1), grid_samples(pos, cofactor@, degree + 1));
            &&& fp2_ok(root)
            &&& crate::poly_spec::peval(e, root.c0 as int) % crate::field::modulus() == 0
            &&& rep.first_p_hat.unwrap()@ == grid_candidate(root.c0, root.c1, cofactor@)
            &&& is_zero_residual(residual_spec(pos, rep.first_p_hat.unwrap()@))
        },
{
    let n = degree + 1;
    let e = eliminant(pos, cofactor, degree);
    let shape = poly_shape(&e);
    let stable = guards_stable(pos, cofactor, &e, n + 1, 4);
    let x_roots = pl::roots(&e);
    let (accepted, first) = back_substitute(pos, cofactor, &x_roots);
    let elim_degree = pl::deg(&e);
    let (first_root, first_p_hat) = match first {
        Some((root, p_hat)) => {
            proof {
                let k = choose|k: int| 0 <= k < x_roots.len() && x_roots@[k] == root.c0;
                assert(x_roots[k] == root.c0);
            }
            (Some(root), Some(p_hat))
        },
        None => (None, None),
    };
    ProbeReport { elim_degree, x_roots: x_roots.len(), accepted, stable, shape, first_root, first_p_hat }
}

/// The length of the quotient of `a` by `b`, at least one.
pub open spec fn quotient_len(a: Seq<u32>, b: Seq<u32>) -> int {
    if a.len() >= b.len() {
        a.len() - b.len() + 1
    } else {
        1
    }
}

/// Euclid's remainders from `(a, b)` until the divisor is constant or the
/// next quotient is linear, with the number of steps taken; `None` when a
/// remainder vanishes first (or the fuel runs out).
pub open spec fn peel_spec(a: Seq<u32>, b: Seq<u32>, fuel: nat) -> Option<(Seq<u32>, Seq<u32>, nat)>
    decreases fuel,
{
    if degree(b) <= 0 || quotient_len(a, b) == 2 {
        Some((a, b, 0nat))
    } else if fuel == 0 {
        None
    } else {
        let r = rem_spec(a, b);
        if r.len() == 0 {
            None
        } else {
            match peel_spec(b, r, (fuel - 1) as nat) {
                Some((x, y, k)) => Some((x, y, k + 1)),
                None => None,
            }
        }
    }
}

/// The trimmed pair, the longer first.
pub open spec fn peel_start(f0: Seq<u32>, f1: Seq<u32>) -> (Seq<u32>, Seq<u32>) {
    if degree(trim_spec(f0)) < degree(trim_spec(f1)) {
        (trim_spec(f1), trim_spec(f0))
    } else {
        (trim_spec(f0), trim_spec(f1))
    }
}

/// Runs Euclid's remainder sequence of `(f0, f1)` (longer first) until the
/// divisor is constant or the next quotient is linear, and returns that pair
/// with the number of steps; `None` when either input is zero or a
/// remainder vanishes on the way.
pub fn peel_to_linear_quotient(f0: &[u32], f1: &[u32]) -> (r: Option<(pl::Poly, pl::Poly, usize)>)
    requires
        reduced(f0@),
        reduced(f1@),
        f0.len() <= 8388608,
        f1.len() <= 8388608,
    ensures
        (trim_spec(f0@).len() == 0 || trim_spec(f1@).len() == 0) ==> r is None,
        (trim_spec(f0@).len() > 0 && trim_spec(f1@).len() > 0) ==> (match r {
            Some((x, y, k)) => peel_spec(peel_start(f0@, f1@).0, peel_start(f0@, f1@).1, peel_start(f0@, f1@).1.len())
                == Some((x@, y@, k as nat)),
            None => peel_spec(peel_start(f0@, f1@).0, peel_start(f0@, f1@).1, peel_start(f0@, f1@).1.len()) is None,
        }),
{
    let mut a = pl::trim(f0);
    let mut b = pl::trim(f1);
    proof {
        crate::poly_spec::lemma_trim(f0@);
        crate::poly_spec::lemma_trim(f1@);
    }
    if a.len() == 0 || b.len() == 0 {
        return None;
    }
    if pl::deg(&a) < pl::deg(&b) {
        let t = a;
        a = b;
        b = t;
    }
    let ghost a0 = a@;
    let ghost b0 = b@;
    let ghost fuel0: nat = b0.len();
    proof {
        assert((a0, b0) == peel_start(f0@, f1@));
    }
    let mut peeled: usize = 0;
    while pl::deg(&b) > 0
        invariant
            canon(a@),
            canon(b@),
            b.len() > 0,
            a.len() <= 8388608,
            b.len() <= 8388608,
            peeled + b.len() <= fuel0,
            fuel0 <= 8388608,
            fuel0 == b0.len(),
            (a0, b0) == peel_start(f0@, f1@),
            trim_spec(f0@).len() > 0 && trim_spec(f1@).len() > 0,
            peel_spec(a0, b0, fuel0) == (match peel_spec(a@, b@, (fuel0 - peeled) as nat) {
                Some((x, y, k)) => Some((x, y, (k + peeled) as nat)),
                None => None,
            }),
        ensures
            degree(b@) <= 0 || quotient_len(a@, b@) == 2,
        decreases b.len(),
    {
        let q_len: usize = if a.len() >= b.len() { a.len() - b.len() + 1 } else { 1 };
        proof {
            assert(q_len == quotient_len(a@, b@));
        }
        if q_len == 2 {
            break;
        }
        proof {
            assert(trim_spec(b@) == b@);
            assert(trim_spec(a@) == a@);
        }
        let r = pl::rem(&a, &b);
        proof {
            let q = choose|q: Seq<u32>| #[trigger] crate::poly_spec::is_divmod(a@, b@, q, r@);
        }
        if r.len() == 0 {
            proof {
                assert(peel_spec(a@, b@, (fuel0 - peeled) as nat) is None);
            }
            return None;
        }
        a = b;
        b = r;
        peeled += 1;
    }
    proof {
        assert(peel_spec(a@, b@, (fuel0 - peeled) as nat) == Some((a@, b@, 0nat)));
    }
    Some((a, b, peeled))
}

/// What a degree measurement found.
#[derive(Clone, Copy, Debug)]
pub struct DegreeReport {
    /// The degree of the interpolant through the first `nodes` samples.
    pub deg: i64,
    pub nodes: usize,
    /// The interpolant agreed with the eight samples after the first `nodes`.
    pub stable: bool,
    pub deg_y0: i64,
    pub deg_y1: i64,
}

/// The largest sample count a degree measurement uses.
pub open spec fn degree_cap(pos: &Poseidon1, max_nodes: int) -> int {
    let f = vstd::arithmetic::power::pow(3, (pos.r_f + pos.r_p) as nat);
    let c1 = if max_nodes > 2 * f * f + 1 { 2 * f * f + 1 } else { max_nodes };
    if c1 > 8388592 { 8388592 } else { c1 }
}

/// Extends `samples` (the resultants at `x = 1, 2, ...`) to `count` entries.
fn extend_samples(pos: &Poseidon1, cofactor: &[Fp2; 7], samples: &mut Vec<u32>, count: usize)
    requires
        scout_instance(pos),
        fp2s_ok(cofactor@),
        count < P,
        old(samples)@ == grid_samples(pos, cofactor@, old(samples).len() as int),
    ensures
        final(samples).len() == if old(samples).len() < count { count } else { old(samples).len() },
        final(samples)@ == grid_samples(pos, cofactor@, final(samples).len() as int),
{
    while samples.len() < count
        invariant
            scout_instance(pos),
            fp2s_ok(cofactor@),
            count < P,
            old(samples).len() <= samples.len(),
            old(samples).len() >= count ==> samples.len() == old(samples).len(),
            old(samples).len() < count ==> samples.len() <= count,
            samples@ == grid_samples(pos, cofactor@, samples.len() as int),
        decreases count - samples.len(),
    {
        let x: u32 = (samples.len() + 1) as u32;
        let r: u32 = resultant_at_x(pos, cofactor, x);
        samples.push(r);
        proof {
            assert(samples@ =~= grid_samples(pos, cofactor@, samples.len() as int));
        }
    }
}

/// The node count the doubling schedule stops at, from `n` nodes on: the
/// first whose interpolant agrees with the next eight fresh resultants, or
/// the cap; the count doubles, capped, in between.
pub open spec fn grid_schedule(pos: &Poseidon1, g: Seq<Fp2>, n: nat, cap: nat) -> nat
    decreases cap - n,
{
    if n == 0 || n >= cap
        || grid_guards_agree(pos, g, elim_spec(grid_xs(n as int), grid_samples(pos, g, n as int)), n as int + 1, 8) {
        n
    } else {
        grid_schedule(pos, g, if 2 * n < cap { 2 * n } else { cap }, cap)
    }
}

/// Measures the eliminant degree of a cofactor: interpolates through the
/// resultants at `x = 1, ..., n` for `n = 16, 32, ...` until the interpolant
/// agrees with the next eight samples or `n` reaches its cap
/// (`min(2 * 3^(2(RF+RP)) + 1, max_nodes, P - 1)`, and the interpolation limit).
pub fn measure_grid_degree(pos: &Poseidon1, cofactor: &[Fp2; 7], max_nodes: usize) -> (r: DegreeReport)
    requires
        scout_instance(pos),
        fp2s_ok(cofactor@),
    ensures
        r.nodes <= degree_cap(pos, max_nodes as int),
        !r.stable ==> r.nodes == degree_cap(pos, max_nodes as int),
        r.nodes > 0 ==> ({
            let e = elim_spec(grid_xs(r.nodes as int), grid_samples(pos, cofactor@, r.nodes as int));
            &&& r.deg == crate::poly_spec::degree(e)
            &&& r.stable == grid_guards_agree(pos, cofactor@, e, r.nodes + 1, 8)
        }),
        r.nodes == 0 ==> r.deg == -1 && r.stable == grid_guards_agree(pos, cofactor@, Seq::<u32>::empty(), 1, 8),
        r.deg_y0 == crate::poly_spec::degree(crate::rootgrid::grid_residual_spec(pos, cofactor@, 1).0),
        r.deg_y1 == crate::poly_spec::degree(crate::rootgrid::grid_residual_spec(pos, cofactor@, 1).1),
        degree_cap(pos, max_nodes as int) > 0 ==> r.nodes == grid_schedule(pos, cofactor@,
            (if degree_cap(pos, max_nodes as int) < 16 { degree_cap(pos, max_nodes as int) } else { 16 }) as nat,
            degree_cap(pos, max_nodes as int) as nat),
{
    let n_rounds: usize = pos.rc.len();
    let mut fwd: u64 = 1;
    let mut k: usize = 0;
    proof {
        vstd::arithmetic::power::lemma_pow0(3);
    }
    while k < n_rounds
        invariant
            scout_instance(pos),
            n_rounds == pos.r_f + pos.r_p,
            k <= n_rounds,
            fwd as int == vstd::arithmetic::power::pow(3, k as nat),
            fwd <= 4194304,
        decreases n_rounds - k,
    {
        proof {
            crate::mds_family::lemma_pow_increases((k + 1) as nat, n_rounds as nat);
            reveal(vstd::arithmetic::power::pow);
        }
        fwd = fwd * 3;
        k += 1;
    }
    assert(fwd * fwd <= 4194304 * 4194304) by (nonlinear_arith)
        requires
            fwd <= 4194304;
    let sq: u64 = fwd * fwd;
    let cap_poly: u64 = 2 * sq + 1;
    let mut hard_cap: usize = max_nodes;
    if (hard_cap as u64) > cap_poly {
        hard_cap = cap_poly as usize;
    }
    if hard_cap > 8388592 {
        hard_cap = 8388592;
    }
    proof {
        let f = vstd::arithmetic::power::pow(3, (pos.r_f + pos.r_p) as nat);
        assert(fwd as int == f);
        assert(2 * f * f == 2 * (f * f)) by (nonlinear_arith);
        assert(cap_poly as int == 2 * f * f + 1);
    }
    assert(hard_cap == degree_cap(pos, max_nodes as int));
    proof {
        vstd::arithmetic::power::lemma_pow_positive(3, (pos.r_f + pos.r_p) as nat);
    }
    let (probe0, probe1) = residual_polys_at_x(pos, cofactor, 1);
    let deg_y0 = pl::deg(&probe0);
    let deg_y1 = pl::deg(&probe1);
    let guard: usize = 8;
    let mut samples: Vec<u32> = Vec::new();
    proof {
        assert(samples@ =~= grid_samples(pos, cofactor@, 0));
    }
    if hard_cap == 0 {
        extend_samples(pos, cofactor, &mut samples, guard);
        let mut stable: bool = true;
        let mut g: usize = 0;
        while g < guard
            invariant
                g <= 8,
                guard == 8,
                samples.len() == 8,
                samples@ == grid_samples(pos, cofactor@, 8),
                stable == grid_guards_agree(pos, cofactor@, Seq::<u32>::empty(), 1, g as int),
            decreases guard - g,
        {
            proof {
                assert(crate::poly_spec::peval(Seq::<u32>::empty(), 1 + g) == 0);
                assert(grid_guard_agrees(pos, cofactor@, Seq::<u32>::empty(), 1 + g) == (samples@[g as int] == 0));
                if stable && samples[g as int] == 0 {
                    assert forall|h: int| 0 <= h < g + 1 implies #[trigger] grid_guard_agrees(pos, cofactor@, Seq::<u32>::empty(), 1 + h) by {}
                }
            }
            if samples[g] != 0 {
                stable = false;
            }
            g += 1;
        }
        return DegreeReport { deg: -1, nodes: 0, stable, deg_y0, deg_y1 };
    }
    let mut n: usize = if hard_cap < 16 { hard_cap } else { 16 };
    let ghost start: nat = n as nat;
    loop
        invariant
            scout_instance(pos),
            fp2s_ok(cofactor@),
            1 <= n <= hard_cap <= 8388592,
            start == (if hard_cap < 16 { hard_cap } else { 16 }),
            grid_schedule(pos, cofactor@, n as nat, hard_cap as nat) == grid_schedule(pos, cofactor@, start, hard_cap as nat),
            hard_cap == degree_cap(pos, max_nodes as int),
            guard == 8,
            samples@ == grid_samples(pos, cofactor@, samples.len() as int),
            deg_y0 == crate::poly_spec::degree(crate::rootgrid::grid_residual_spec(pos, cofactor@, 1).0),
            deg_y1 == crate::poly_spec::degree(crate::rootgrid::grid_residual_spec(pos, cofactor@, 1).1),
        decreases hard_cap - n,
    {
        extend_samples(pos, cofactor, &mut samples, n + guard);
        let xs = sample_grid(n);
        let mut ys: Vec<u32> = Vec::new();
        let mut i: usize = 0;
        while i < n
            invariant
                i <= n,
                n + 8 <= samples.len(),
                ys.len() == i,
                forall|k: int| 0 <= k < i ==> #[trigger] ys@[k] == samples@[k],
            decreases n - i,
        {
            ys.push(samples[i]);
            i += 1;
        }
        proof {
            assert(xs@ =~= grid_xs(n as int));
            assert(ys@ =~= grid_samples(pos, cofactor@, n as int));
            assert forall|k: int| 0 <= k < n implies #[trigger] ys@[k] < P by {
                assert(ys@[k] == grid_samples(pos, cofactor@, n as int)[k]);
            }
        }
        let e = pl::interpolate(&xs, &ys);
        let deg = pl::deg(&e);
        let mut stable: bool = true;
        let mut g: usize = 0;
        while g < guard
            invariant
                g <= 8,
                guard == 8,
                1 <= n <= 8388592,
                n + 8 <= samples.len(),
                samples@ == grid_samples(pos, cofactor@, samples.len() as int),
                crate::poly_spec::canon(e@),
                stable == grid_guards_agree(pos, cofactor@, e@, n + 1, g as int),
            decreases guard - g,
        {
            let x: u32 = (n + 1 + g) as u32;
            let v: u32 = pl::eval(&e, x);
            proof {
                assert(samples@[(n + g) as int] == grid_samples(pos, cofactor@, samples.len() as int)[(n + g) as int]);
                assert(grid_guard_agrees(pos, cofactor@, e@, n + 1 + g) == (v == samples@[(n + g) as int]));
                if stable && v == samples[(n + g) as int] {
                    assert forall|h: int| 0 <= h < g + 1 implies #[trigger] grid_guard_agrees(pos, cofactor@, e@, n + 1 + h) by {}
                }
            }
            if v != samples[n + g] {
                stable = false;
            }
            g += 1;
        }
        proof {
            assert(e@ == elim_spec(grid_xs(n as int), grid_samples(pos, cofactor@, n as int)));
        }
        if stable || n >= hard_cap {
            return DegreeReport { deg, nodes: n, stable, deg_y0, deg_y1 };
        }
        n = if 2 * n < hard_cap { 2 * n } else { hard_cap };
    }
}

} // verus!
