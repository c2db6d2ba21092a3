use lib::cico::{low_zero_bits, measure_resultant_degree, perm_plus_linear_poly, relaxed_search, solve_cico2, solve_cico2_gcd};
use lib::poly::eval;
use lib::{cico_residual, verify_cico, Poseidon1, CICO_C1, CICO_C2, P};

const PU64: u64 = P as u64;

struct Rng(u64);
impl Rng {
    fn new(s: u64) -> Self {
        Rng(s)
    }
    fn next(&mut self) -> u64 {
        self.0 = self.0.wrapping_add(0x9E3779B97F4A7C15);
        let mut z = self.0;
        z = (z ^ (z >> 30)).wrapping_mul(0xBF58476D1CE4E5B9);
        z = (z ^ (z >> 27)).wrapping_mul(0x94D049BB133111EB);
        z ^ (z >> 31)
    }
    fn field(&mut self) -> u32 {
        (self.next() % PU64) as u32
    }
    fn field_nz(&mut self) -> u32 {
        1 + (self.next() % (PU64 - 1)) as u32
    }
}

#[test]
fn symbolic_permutation_matches_numeric() {
    let pos = Poseidon1::new_canonical(3, 16, 6, 2);
    let mut rng = Rng::new(11);
    let nfree = 14;
    let b: Vec<u32> = (0..nfree).map(|_| rng.field()).collect();
    let d: Vec<u32> = (0..nfree).map(|_| rng.field_nz()).collect();
    let mut state_poly: Vec<Vec<u32>> = vec![vec![CICO_C1 % P], vec![CICO_C2 % P]];
    for j in 0..nfree {
        state_poly.push(vec![b[j], d[j]]);
    }
    let sym = perm_plus_linear_poly(&pos, &state_poly);
    let x0 = rng.field();
    let mut concrete = [0u32; 16];
    concrete[0] = CICO_C1 % P;
    concrete[1] = CICO_C2 % P;
    for j in 0..nfree {
        concrete[2 + j] = ((b[j] as u64 + x0 as u64 * d[j] as u64) % PU64) as u32;
    }
    let num = pos.permutation_plus_linear(&concrete);
    for i in 0..16 {
        assert_eq!(eval(&sym[i], x0), num[i]);
    }
}

#[test]
fn resultant_route_and_planted_gcd_route() {
    let pos_red = Poseidon1::new_canonical(3, 16, 2, 0);
    let sol = solve_cico2(&pos_red, 8, 5).expect("a solution");
    assert!(verify_cico(&pos_red, &sol));
    let mut rng = Rng::new(99);
    let nfree = 14;
    let direction: Vec<u32> = (0..nfree).map(|_| rng.field_nz()).collect();
    let x0 = rng.field();
    let base: Vec<u32> = (0..nfree)
        .map(|j| {
            let sub = (x0 as u64 * direction[j] as u64) % PU64;
            ((sol[j] as u64 + PU64 - sub) % PU64) as u32
        })
        .collect();
    let (got, info) = solve_cico2_gcd(&pos_red, Some(&base), Some(&direction), 1, 0);
    let got = got.expect("planted solution");
    assert!(verify_cico(&pos_red, &got));
    assert_eq!(got, sol);
    assert_eq!(info.lines_tried, 1);
}

#[test]
fn gcd_route_no_false_positive() {
    let pos_red = Poseidon1::new_canonical(3, 16, 2, 0);
    let (none_got, info) = solve_cico2_gcd(&pos_red, None, None, 1, 123456);
    assert!(none_got.is_none());
    assert_eq!(info.lines_tried, 1);
}

#[test]
fn resultant_degree_law_small() {
    let pp = Poseidon1::new_canonical(3, 16, 2, 0);
    assert_eq!(measure_resultant_degree(&pp, 2026), 81);
}

#[test]
fn low_zero_bits_counts_trailing_zeros() {
    assert_eq!(lib::cico::low_zero_bits(0), 31);
    assert_eq!(lib::cico::low_zero_bits(1), 0);
    assert_eq!(lib::cico::low_zero_bits(12), 2);
    assert_eq!(lib::cico::low_zero_bits(1 << 30), 30);
    assert_eq!(lib::cico::low_zero_bits(0x8000_0000), 31);
    assert_eq!(lib::cico::low_zero_bits(0x4000_0001), 0);
}

#[test]
fn relaxed_search_keeps_the_first_best_trial() {
    let pos = Poseidon1::new_canonical(3, 16, 6, 10);
    let mut base = [0u32; 14];
    for i in 2..14 {
        base[i] = (0x9E3779B1u32).wrapping_mul(i as u32 + 1) % P;
    }
    let trials = 64u64;
    let run = relaxed_search(&pos, &base, trials);
    let mut best = 0u32;
    let mut best_free = base.to_vec();
    let mut imps = Vec::new();
    for i in 0..trials {
        let mut f = base;
        f[0] = (i % P as u64) as u32;
        f[1] = ((i / P as u64) % P as u64) as u32;
        let (r0, r1) = cico_residual(&pos, &f);
        let m = low_zero_bits(r0).min(low_zero_bits(r1));
        if m > best {
            best = m;
            best_free = f.to_vec();
            imps.push((m, r0, r1));
        }
    }
    assert_eq!(run.best_m, best);
    assert_eq!(run.best_free, best_free);
    assert_eq!(run.improvements, imps);
    assert!(run.best_m > 0);
    assert_eq!(low_zero_bits(0), 31);
    assert_eq!(low_zero_bits(12), 2);
}

#[test]
fn relaxed_search_with_no_trials_keeps_the_base() {
    let pos = Poseidon1::new_canonical(3, 16, 6, 10);
    let base = [5u32; 14];
    let run = relaxed_search(&pos, &base, 0);
    assert_eq!(run.best_m, 0);
    assert_eq!(run.best_free, base.to_vec());
    assert_eq!(run.best_res, (u32::MAX, u32::MAX));
    assert!(run.improvements.is_empty());
}

#[test]
fn solve_cico2_with_no_tries_returns_none_at_any_round_count() {
    let pos = lib::Poseidon1::new_canonical(3, 16, 8, 20);
    assert!(lib::cico::solve_cico2(&pos, 0, 99).is_none());
}

#[test]
fn resultant_degree_law_one_partial_round() {
    let pp = Poseidon1::new_canonical(3, 16, 2, 1);
    assert_eq!(measure_resultant_degree(&pp, 2026), 243);
}

#[test]
fn resultant_degree_law_two_partial_rounds() {
    let pp = Poseidon1::new_canonical(3, 16, 2, 2);
    assert_eq!(measure_resultant_degree(&pp, 2026), 729);
}
