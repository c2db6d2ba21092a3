use lib::poly::{
    add, deg, deriv, divmod, divmod_schoolbook, eval, gcd, interpolate, mul, mul_ntt,
    mul_schoolbook, powmod, rem, rem_schoolbook, resultant, resultant_profiled, roots, scalar,
    sub, trim, SplitMix, MAX_NTT_LEN,
};
use lib::P;

const PU64: u64 = P as u64;

struct Rng(u64);
impl Rng {
    fn new(s: u64) -> Self {
        Rng(s)
    }
    fn next(&mut self) -> u64 {
        self.0 = self.0.wrapping_add(0x9E3779B97F4A7C15);
        let mut z = self.0;
        z = (z ^ (z >> 30)).wrapping_mul(0xBF58476D1CE4E5B9);
        z = (z ^ (z >> 27)).wrapping_mul(0x94D049BB133111EB);
        z ^ (z >> 31)
    }
    fn field(&mut self) -> u32 {
        (self.next() % PU64) as u32
    }
    fn poly(&mut self, dmax: usize) -> Vec<u32> {
        let d = (self.next() as usize) % (dmax + 1);
        let p = trim(&(0..=d).map(|_| self.field()).collect::<Vec<_>>());
        if p.is_empty() {
            vec![self.field().max(1)]
        } else {
            p
        }
    }
}

fn feval_mul(a: &[u32], b: &[u32], t: u32) -> u32 {
    ((eval(a, t) as u64 * eval(b, t) as u64) % PU64) as u32
}

fn inv_fp(a: u32) -> u32 {
    let mut base = a as u64 % PU64;
    let mut e = (P - 2) as u64;
    let mut r: u64 = 1;
    while e > 0 {
        if e & 1 == 1 {
            r = r * base % PU64;
        }
        base = base * base % PU64;
        e >>= 1;
    }
    r as u32
}

/// Sylvester-matrix resultant by Gaussian elimination.
fn sylvester_res(a_in: &[u32], b_in: &[u32]) -> u32 {
    let a = trim(a_in);
    let b = trim(b_in);
    if a.is_empty() || b.is_empty() {
        return 0;
    }
    let m = a.len() - 1;
    let n = b.len() - 1;
    let nn = m + n;
    if nn == 0 {
        return 1;
    }
    let ah: Vec<u32> = a.iter().rev().cloned().collect();
    let bh: Vec<u32> = b.iter().rev().cloned().collect();
    let mut mat = vec![vec![0u32; nn]; nn];
    for i in 0..n {
        for (j, &c) in ah.iter().enumerate() {
            mat[i][i + j] = c % P;
        }
    }
    for i in 0..m {
        for (j, &c) in bh.iter().enumerate() {
            mat[n + i][i + j] = c % P;
        }
    }
    let mut det: u64 = 1;
    for col in 0..nn {
        let piv = match (col..nn).find(|&r| mat[r][col] % P != 0) {
            Some(p) => p,
            None => return 0,
        };
        if piv != col {
            mat.swap(col, piv);
            det = (PU64 - det % PU64) % PU64;
        }
        det = det * mat[col][col] as u64 % PU64;
        let inv = inv_fp(mat[col][col]);
        for r in (col + 1)..nn {
            let f = (mat[r][col] as u64 * inv as u64 % PU64) as u32;
            if f != 0 {
                for k in 0..nn {
                    let t = (mat[r][k] as u64 + PU64 - (f as u64 * mat[col][k] as u64 % PU64)) % PU64;
                    mat[r][k] = t as u32;
                }
            }
        }
    }
    (det % PU64) as u32
}

#[test]
fn mul_matches_evaluation() {
    let mut rng = Rng::new(7);
    for _ in 0..200 {
        let a = rng.poly(8);
        let b = rng.poly(6);
        let ab = mul(&a, &b);
        for _ in 0..3 {
            let t = rng.field();
            assert_eq!(eval(&ab, t), feval_mul(&a, &b, t));
        }
    }
}

#[test]
fn divmod_identity_and_degree() {
    let mut rng = Rng::new(8);
    for _ in 0..200 {
        let a = rng.poly(8);
        let b = rng.poly(6);
        let (q, r) = divmod(&a, &b);
        assert_eq!(add(&mul(&q, &b), &r), trim(&a));
        assert!(r.is_empty() || deg(&r) < deg(&b));
        assert_eq!(rem(&a, &b), r);
        assert_eq!(rem_schoolbook(&a, &b), r);
    }
}

#[test]
fn gcd_divides_monic_maximal() {
    let mut rng = Rng::new(9);
    for _ in 0..150 {
        let a = rng.poly(8);
        let b = rng.poly(6);
        let g = gcd(&a, &b);
        assert!(!g.is_empty());
        assert!(rem(&a, &g).is_empty() && rem(&b, &g).is_empty());
        assert_eq!(*g.last().unwrap(), 1);
        let ca = divmod(&a, &g).0;
        let cb = divmod(&b, &g).0;
        assert_eq!(deg(&gcd(&ca, &cb)), 0);
    }
}

#[test]
fn resultant_matches_sylvester() {
    let mut rng = Rng::new(10);
    for _ in 0..150 {
        let a = rng.poly(7);
        let b = rng.poly(5);
        assert_eq!(resultant(&a, &b), sylvester_res(&a, &b));
    }
}

#[test]
fn resultant_zero_iff_common_factor() {
    let g = mul(&[3, 1], &[5, 1]);
    let h = mul(&[3, 1], &[9, 1]);
    assert_eq!(resultant(&g, &h), 0);
    let h2 = mul(&[7, 1], &[9, 1]);
    assert_ne!(resultant(&g, &h2), 0);
    assert_eq!(resultant(&[], &g), 0);
    // Res(a, c) = c^deg(a) for a constant c
    assert_eq!(resultant(&g, &[2]), 4);
    // Res(x + 3, x + 5) = 5 - 3 up to sign convention: (-1)^0 * ...
    assert_eq!(resultant(&[3, 1], &[5, 1]), 2);
}

#[test]
fn resultant_profiled_counts_steps() {
    let a = mul(&mul(&[1, 1], &[2, 1]), &[3, 1]);
    let b = mul(&[4, 1], &[6, 1]);
    let (r, stats) = resultant_profiled(&a, &b);
    assert_eq!(r, resultant(&a, &b));
    assert_eq!(stats.initial_deg_a, 3);
    assert_eq!(stats.initial_deg_b, 2);
    assert!(stats.steps >= 1);
    assert_eq!(stats.schoolbook_steps + stats.fast_steps, stats.steps);
    assert!(!stats.zero_remainder);
    let (z, zs) = resultant_profiled(&[], &b);
    assert_eq!(z, 0);
    assert!(zs.zero_remainder);
    assert_eq!(zs.initial_deg_a, -1);
}

#[test]
fn roots_find_planted_and_only_roots() {
    let mut rng = Rng::new(11);
    for _ in 0..20 {
        let k = 1 + (rng.next() as usize) % 6;
        let mut planted: Vec<u32> = (0..k).map(|_| rng.field()).collect();
        planted.sort_unstable();
        planted.dedup();
        let mut f = vec![1u32];
        for &r in &planted {
            f = mul(&f, &[(P - r % P) % P, 1]);
        }
        let found = roots(&f);
        for r in &planted {
            assert!(found.contains(r));
        }
        for r in &found {
            assert_eq!(eval(&f, *r), 0);
        }
        assert!(found.windows(2).all(|w| w[0] < w[1]));
    }
    assert!(roots(&[]).is_empty());
    assert!(roots(&[7]).is_empty());
}

#[test]
fn roots_hardcoded() {
    let f = mul(&mul(&[P - 1, 1], &[P - 2, 1]), &[P - 100, 1]);
    assert_eq!(roots(&f), vec![1u32, 2, 100]);
    // x^2 + 1 has roots iff -1 is a square; p = 1 mod 4 so it does
    let r = roots(&[1, 0, 1]);
    assert_eq!(r.len(), 2);
    for x in r {
        assert_eq!(eval(&[1, 0, 1], x), 0);
    }
}

#[test]
fn interpolation_round_trips() {
    let mut rng = Rng::new(12);
    for _ in 0..40 {
        let f = rng.poly(10);
        let need = f.len() + 2;
        let mut xs: Vec<u32> = Vec::new();
        while xs.len() < need {
            let v = rng.field();
            if !xs.contains(&v) {
                xs.push(v);
            }
        }
        let ys: Vec<u32> = xs.iter().map(|&xi| eval(&f, xi)).collect();
        assert_eq!(interpolate(&xs, &ys), trim(&f));
    }
}

#[test]
fn interpolation_arithmetic_nodes() {
    let f = vec![5u32, 0, 3, 1];
    let xs: Vec<u32> = (1u32..=6).collect();
    let ys: Vec<u32> = xs.iter().map(|&x| eval(&f, x)).collect();
    assert_eq!(interpolate(&xs, &ys), f);
    let xs2: Vec<u32> = (0u32..5).map(|i| 10 + 7 * i).collect();
    let ys2: Vec<u32> = xs2.iter().map(|&x| eval(&f, x)).collect();
    assert_eq!(interpolate(&xs2, &ys2), f);
    assert_eq!(interpolate(&[4], &[9]), vec![9u32]);
}

#[test]
fn ntt_matches_schoolbook() {
    let mut rng = Rng::new(13);
    for (la, lb) in [(130usize, 151usize), (257, 199), (513, 377), (1024, 733)] {
        let a: Vec<u32> = (0..la).map(|_| rng.field()).collect();
        let b: Vec<u32> = (0..lb).map(|_| rng.field()).collect();
        let sb = mul_schoolbook(&a, &b);
        assert_eq!(mul_ntt(&a, &b), sb);
        assert_eq!(mul(&a, &b), sb);
    }
    assert_eq!(MAX_NTT_LEN, 1usize << 24);
}

#[test]
fn fast_divmod_matches_schoolbook() {
    let mut rng = Rng::new(14);
    for (la, lb) in [(700usize, 320usize), (1200, 513), (2500, 997)] {
        let mut a: Vec<u32> = (0..la).map(|_| rng.field()).collect();
        let mut b: Vec<u32> = (0..lb).map(|_| rng.field()).collect();
        *a.last_mut().unwrap() = 1;
        *b.last_mut().unwrap() = 1;
        let (q_fast, r_fast) = divmod(&a, &b);
        let (q_slow, r_slow) = divmod_schoolbook(&a, &b);
        assert_eq!(q_fast, q_slow);
        assert_eq!(r_fast, r_slow);
        assert_eq!(add(&mul(&q_fast, &b), &r_fast), trim(&a));
        assert_eq!(rem(&a, &b), r_slow);
    }
}

#[test]
fn fast_divmod_with_zero_constant_quotient() {
    // quotient with a zero constant term exercises the reversal length
    let mut b: Vec<u32> = vec![0; 300];
    b[0] = 5;
    b[299] = 1;
    let mut q: Vec<u32> = vec![0; 400];
    q[1] = 7;
    q[399] = 3;
    let a = add(&mul(&q, &b), &[11, 2]);
    let (qq, rr) = divmod(&a, &b);
    assert_eq!(qq, trim(&q));
    assert_eq!(rr, vec![11u32, 2]);
}

#[test]
fn large_gcd_contains_planted_factor() {
    let mut rng = Rng::new(15);
    let mut common = vec![1u32];
    for r in [17u32, 29, 101, 1009, 65537] {
        common = mul(&common, &[(P - r) % P, 1]);
    }
    let mut ca: Vec<u32> = (0..300).map(|_| rng.field()).collect();
    let mut cb: Vec<u32> = (0..280).map(|_| rng.field()).collect();
    *ca.last_mut().unwrap() = 1;
    *cb.last_mut().unwrap() = 1;
    let g = gcd(&mul(&common, &ca), &mul(&common, &cb));
    assert!(rem(&g, &common).is_empty() && rem(&common, &g).is_empty());
}

#[test]
fn parity_vectors() {
    assert_eq!(mul(&[3, 1], &[5, 1]), vec![15u32, 8, 1]);
    assert_eq!(gcd(&mul(&[3, 1], &[5, 1]), &mul(&[3, 1], &[9, 1])), vec![3u32, 1]);
    assert_eq!(add(&[1, 2, 3], &[P - 1, 0, P - 3]), vec![0u32, 2]);
    assert_eq!(sub(&[5], &[7]), vec![P - 2]);
    assert_eq!(scalar(&[1, 2, 3], P + 2), vec![2u32, 4, 6]);
    assert_eq!(scalar(&[1, 2, 3], P), Vec::<u32>::new());
    assert_eq!(deriv(&[9, 1, 1, 1]), vec![1u32, 2, 3]);
    assert_eq!(deg(&[1, 0, 0]), 0);
    assert_eq!(deg(&[0, 0]), -1);
    assert_eq!(trim(&[4, 0, 5, 0, 0]), vec![4u32, 0, 5]);
    assert_eq!(eval(&[1, 2, 3], 10), 321);
}

#[test]
fn powmod_fermat() {
    // x^p == x (mod f) when f splits into distinct linear factors
    let f = mul(&mul(&[P - 1, 1], &[P - 2, 1]), &[P - 100, 1]);
    let xp = powmod(&[0, 1], PU64, &f);
    assert_eq!(xp, vec![0u32, 1]);
    assert_eq!(powmod(&[3, 1], 0, &f), vec![1u32]);
    assert_eq!(powmod(&[0, 1], 2, &[0, 0, 0, 1]), vec![0u32, 0, 1]);
    // base reduced first
    assert_eq!(powmod(&[0, 0, 0, 1], 1, &[0, 0, 1]), Vec::<u32>::new());
}

#[test]
fn splitmix_stream() {
    let mut a = SplitMix::new(2026);
    let mut b = SplitMix::new(2026);
    let x = a.next_u64();
    assert_eq!(x, b.next_u64());
    let f = a.next_field();
    assert!(f < P);
    let mut c = SplitMix::new(0);
    // first SplitMix64 output for seed 0
    assert_eq!(c.next_u64(), 0xE220A8397B1DCDAF);
}

#[test]
fn powmod_exponent_zero_is_one_reduced() {
    // base^0 mod m is 1 mod m: 1 for a nonconstant modulus, 0 for a constant one
    assert_eq!(powmod(&[1, 1], 0, &[5]), Vec::<u32>::new());
    assert_eq!(powmod(&[1, 1], 0, &[0, 1]), vec![1u32]);
    assert_eq!(powmod(&[1, 1], 0, &[0, 0, 0, 1, 0, 0]), vec![1u32]);
}

#[test]
fn roots_ignore_trailing_zeros() {
    let f = vec![2u32, P - 3, 1];
    let mut padded = f.clone();
    padded.extend_from_slice(&[0, 0, 0, 0]);
    assert_eq!(roots(&padded), roots(&f));
    assert_eq!(roots(&f), vec![1u32, 2]);
}

#[test]
fn resultant_profiled_counters_agree() {
    // a common root gives a zero remainder and a zero resultant
    let a = mul(&mul(&[1, 1], &[2, 1]), &[3, 1]);
    let b = mul(&[1, 1], &[5, 1]);
    let (r, s) = resultant_profiled(&a, &b);
    assert_eq!(r, 0);
    assert!(s.zero_remainder);
    let c: Vec<u32> = (1u32..40).collect();
    let d: Vec<u32> = (7u32..30).collect();
    let (r2, s2) = resultant_profiled(&c, &d);
    assert_eq!(r2 == 0, s2.zero_remainder);
    assert_eq!(s2.steps, s2.schoolbook_steps + s2.fast_steps);
    assert_eq!(s2.fast_steps, s2.q_len_fast);
    assert_eq!(s2.q_len_2_3, s2.q_len_2 + s2.q_len_3);
    assert_eq!(s2.steps, s2.q_len_1 + s2.q_len_2_3 + s2.q_len_4_15 + s2.q_len_16_255 + s2.q_len_fast);
    assert_eq!(s2.jump_events.len(), s2.q_len_16_255 + s2.q_len_fast);
}

#[test]
fn mul_by_zero_is_zero_at_any_length() {
    let long: Vec<u32> = vec![1; 16_777_300];
    assert!(lib::poly::mul(&[], &long).is_empty());
    assert!(lib::poly::mul(&long, &[0, 0]).is_empty());
    assert!(lib::poly::mul_ntt(&[0], &long).is_empty());
}

#[test]
fn interpolate_passes_through_every_node() {
    // scattered, non-arithmetic nodes
    let xs: Vec<u32> = (0..40u32).map(|i| (i * i * 7919 + 3 * i + 11) % lib::P).collect();
    let ys: Vec<u32> = (0..40u32).map(|i| (i * 104729 + 17) % lib::P).collect();
    let r = interpolate(&xs, &ys);
    assert!(r.len() <= xs.len());
    for (x, y) in xs.iter().zip(ys.iter()) {
        assert_eq!(eval(&r, *x), *y);
    }
    // an arithmetic progression of nodes
    let xs2: Vec<u32> = (0..25u32).map(|i| 5 + 3 * i).collect();
    let ys2: Vec<u32> = (0..25u32).map(|i| lib::P - 1 - i).collect();
    let r2 = interpolate(&xs2, &ys2);
    for (x, y) in xs2.iter().zip(ys2.iter()) {
        assert_eq!(eval(&r2, *x), *y);
    }
}

#[test]
fn divmod_gives_back_the_dividend() {
    let a: Vec<u32> = (0..300u32).map(|i| (i * 31337 + 5) % lib::P).collect();
    let b: Vec<u32> = (0..41u32).map(|i| (i * 7 + 1) % lib::P).collect();
    let (q, r) = divmod(&a, &b);
    assert!(r.is_empty() || deg(&r) < deg(&b));
    assert_eq!(add(&mul(&q, &b), &r), trim(&a));
    let (q2, r2) = divmod_schoolbook(&a, &b);
    assert_eq!((q2, r2), (q, r));
}

#[test]
fn resultant_vanishes_exactly_on_a_common_factor() {
    let mut rng = SplitMix::new(4242);
    let rp = |rng: &mut SplitMix, d: usize| -> Vec<u32> {
        let mut f: Vec<u32> = (0..d).map(|_| rng.next_field()).collect();
        f.push(1 + rng.next_field() % (P - 1));
        f
    };
    for _ in 0..5 {
        let g = rp(&mut rng, 3);
        let a = mul(&g, &rp(&mut rng, 9));
        let b = mul(&g, &rp(&mut rng, 6));
        assert!(deg(&gcd(&a, &b)) >= 3);
        assert_eq!(resultant(&a, &b), 0);
        let c = rp(&mut rng, 11);
        let d = rp(&mut rng, 7);
        if gcd(&c, &d) == vec![1u32] {
            assert_ne!(resultant(&c, &d), 0);
        } else {
            assert_eq!(resultant(&c, &d), 0);
        }
    }
}

#[test]
fn interpolate_recovers_a_short_padded_polynomial() {
    let f = vec![5u32, 0, 7, 0, 0];
    let xs = vec![3u32, 9, 11, 20];
    let ys: Vec<u32> = xs.iter().map(|&x| eval(&f, x)).collect();
    assert_eq!(interpolate(&xs, &ys), vec![5u32, 0, 7]);
}
