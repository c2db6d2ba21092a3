use lib::fast_resultant::{
    apply_step, hgcd, ident, matmul, matvec, neg, resultant_eea, resultant_fast, shr, StepRec,
};
use lib::poly as pl;
use lib::P;

const PU64: u64 = P as u64;

struct Rng(u64);

impl Rng {
    fn next(&mut self) -> u64 {
        self.0 = self.0.wrapping_add(0x9E3779B97F4A7C15);
        let mut z = self.0;
        z = (z ^ (z >> 30)).wrapping_mul(0xBF58476D1CE4E5B9);
        z = (z ^ (z >> 27)).wrapping_mul(0x94D049BB133111EB);
        z ^ (z >> 31)
    }
    fn field(&mut self) -> u32 {
        (self.next() % PU64) as u32
    }
    /// A polynomial of exact degree `d`.
    fn poly(&mut self, d: usize) -> Vec<u32> {
        let mut v: Vec<u32> = (0..=d).map(|_| self.field()).collect();
        if v[d] == 0 {
            v[d] = 1;
        }
        v
    }
}

#[test]
fn edge_inputs_match_the_oracle() {
    let cases: Vec<(Vec<u32>, Vec<u32>)> = vec![
        (vec![], vec![5, 1]),
        (vec![7], vec![]),
        (vec![7], vec![3]),
        (vec![7], vec![3, 1, 2]),
        (vec![3, 1, 2], vec![7]),
        (vec![1, 1], vec![1, 1]),
        (vec![0, 0, 1], vec![0, 1]),
        (vec![5], vec![0]),
    ];
    for (a, b) in &cases {
        let oracle = pl::resultant(a, b);
        assert_eq!(resultant_eea(a, b), oracle, "eea a={:?} b={:?}", a, b);
        assert_eq!(resultant_fast(a, b), oracle, "fast a={:?} b={:?}", a, b);
    }
}

#[test]
fn small_random_pairs_match_the_oracle() {
    let mut rng = Rng(1);
    for _ in 0..300 {
        let da = 2 + (rng.next() % 19) as usize;
        let db = 2 + (rng.next() % 19) as usize;
        let a = rng.poly(da);
        let b = rng.poly(db);
        let oracle = pl::resultant(&a, &b);
        assert_eq!(resultant_eea(&a, &b), oracle);
        assert_eq!(resultant_fast(&a, &b), oracle);
    }
}

#[test]
fn large_random_pairs_take_the_half_gcd_and_match() {
    let mut rng = Rng(2);
    for &d in &[64usize, 200, 1000] {
        for &db in &[d, d - 1, d / 3] {
            let a = rng.poly(d);
            let b = rng.poly(db);
            let oracle = pl::resultant(&a, &b);
            assert_eq!(resultant_fast(&a, &b), oracle, "deg {} / {}", d, db);
            assert_eq!(resultant_fast(&b, &a), pl::resultant(&b, &a), "deg {} / {}", db, d);
        }
    }
}

#[test]
fn planted_common_factor_gives_zero() {
    let mut rng = Rng(3);
    let xm3 = vec![P - 3, 1];
    let xm5 = vec![P - 5, 1];
    let xm9 = vec![P - 9, 1];
    for _ in 0..10 {
        let d1 = 30 + (rng.next() % 40) as usize;
        let r1 = rng.poly(d1);
        let d2 = 30 + (rng.next() % 40) as usize;
        let r2 = rng.poly(d2);
        let a = pl::mul(&pl::mul(&xm3, &xm5), &r1);
        let b = pl::mul(&pl::mul(&xm3, &xm9), &r2);
        assert_eq!(resultant_fast(&a, &b), 0);
        assert_eq!(resultant_eea(&a, &b), 0);
        assert_eq!(pl::resultant(&a, &b), 0);
    }
}

#[test]
fn coprime_pairs_are_nonzero_and_match() {
    let mut rng = Rng(4);
    let mut nonzero = 0;
    for _ in 0..50 {
        let a = pl::mul(&[P - 11, 1], &rng.poly(60));
        let b = pl::mul(&[P - 13, 1], &rng.poly(60));
        let oracle = pl::resultant(&a, &b);
        if oracle != 0 {
            nonzero += 1;
        }
        assert_eq!(resultant_fast(&a, &b), oracle);
    }
    assert!(nonzero > 40);
}

#[test]
fn resultant_of_linear_factors_is_the_product_of_differences() {
    // Res(x - 2, x - 7) = 2 - 7 = -5.
    assert_eq!(resultant_eea(&[P - 2, 1], &[P - 7, 1]), P - 5);
    assert_eq!(resultant_fast(&[P - 2, 1], &[P - 7, 1]), P - 5);
}

#[test]
fn hgcd_reduces_and_records_positive_drops() {
    let mut rng = Rng(5);
    let a = rng.poly(120);
    let b = rng.poly(119);
    let mut rec: Vec<StepRec> = Vec::new();
    let m = hgcd(&a, &b, &mut rec);
    assert!(!rec.is_empty());
    assert!(rec.iter().all(|r| r.rdrop >= 1 && r.lc < P));
    let (aa, bb) = matvec(&m, &a, &b);
    // the half-GCD brings the pair below half the input degree
    assert!(pl::deg(&bb) <= 60);
    assert!(pl::deg(&aa) > pl::deg(&bb));
}

#[test]
fn matrix_helpers() {
    let i = ident();
    let a = vec![1, 2, 3];
    let b = vec![4, 5];
    let (x, y) = matvec(&i, &a, &b);
    assert_eq!(x, a);
    assert_eq!(y, b);
    let sq = matmul(&i, &i);
    assert_eq!(sq[0], vec![1]);
    assert!(sq[1].is_empty() && sq[2].is_empty());
    assert_eq!(neg(&[1, 0, 2]), vec![P - 1, 0, P - 2]);
    assert_eq!(shr(&[1, 2, 3, 4], 2), vec![3, 4]);
    assert!(shr(&[1, 2], 5).is_empty());
}

#[test]
fn apply_step_folds_sign_and_leading_power() {
    // dividend degree 3, divisor degree 2, remainder degree 1: (-1)^6 * 5^(3-1) = 25
    let mut res = 1u32;
    let mut da = 3i64;
    let mut db = 2i64;
    assert!(apply_step(&mut res, &mut da, &mut db, StepRec { rdrop: 1, lc: 5 }));
    assert_eq!((res, da, db), (25, 2, 1));
    // degrees 3 and 1 (odd product) negate
    let mut res = 1u32;
    let mut da = 3i64;
    let mut db = 1i64;
    assert!(apply_step(&mut res, &mut da, &mut db, StepRec { rdrop: 1, lc: 1 }));
    assert_eq!(res, P - 1);
    // a record whose remainder vanishes changes nothing
    let mut res = 9u32;
    let mut da = 4i64;
    let mut db = 2i64;
    assert!(!apply_step(&mut res, &mut da, &mut db, StepRec { rdrop: 3, lc: 7 }));
    assert_eq!((res, da, db), (9, 4, 2));
}

fn rand_poly(rng: &mut lib::poly::SplitMix, degree: usize) -> Vec<u32> {
    let mut f: Vec<u32> = (0..degree).map(|_| rng.next_field()).collect();
    f.push(1 + rng.next_field() % (lib::P - 1));
    f
}

#[test]
fn gcd_fast_matches_euclid() {
    let mut rng = lib::poly::SplitMix::new(20260603);
    for &(da, db) in &[(48usize, 30usize), (80, 79), (200, 137), (60, 60), (300, 13)] {
        for _ in 0..4 {
            let a = rand_poly(&mut rng, da);
            let b = rand_poly(&mut rng, db);
            assert_eq!(lib::fast_resultant::gcd_fast(&a, &b), lib::poly::gcd(&a, &b));
        }
    }
    // a planted common factor survives
    let g = rand_poly(&mut rng, 20);
    let a = lib::poly::mul(&g, &rand_poly(&mut rng, 120));
    let b = lib::poly::mul(&g, &rand_poly(&mut rng, 110));
    let got = lib::fast_resultant::gcd_fast(&a, &b);
    assert_eq!(got, lib::poly::gcd(&a, &b));
    assert!(pl::deg(&got) >= 20);
    assert!(pl::rem(&a, &got).is_empty());
    assert!(pl::rem(&b, &got).is_empty());
}

#[test]
fn gcd_fast_degenerate_inputs() {
    let mp = |f: &[u32]| lib::fast_resultant::monic_poly(f);
    assert_eq!(lib::fast_resultant::gcd_fast(&[], &[5, 1]), mp(&lib::poly::gcd(&[], &[5, 1])));
    assert_eq!(lib::fast_resultant::gcd_fast(&[7], &[]), mp(&lib::poly::gcd(&[7], &[])));
    assert_eq!(lib::fast_resultant::gcd_fast(&[1, 1], &[1, 1]), mp(&[1u32, 1]));
    assert_eq!(mp(&[2, 4, 0]), vec![(lib::P + 1) / 2, 1]);
    assert!(mp(&[0, 0]).is_empty());
}

#[test]
fn hgcd_on_an_unbalanced_pair_returns_the_identity_without_records() {
    // deg b below half of deg a: nothing to do
    let mut rng = Rng(9);
    let a = rng.poly(100);
    let b = rng.poly(30);
    let mut rec: Vec<StepRec> = Vec::new();
    let m = hgcd(&a, &b, &mut rec);
    assert!(rec.is_empty());
    assert_eq!(m[0], vec![1]);
    assert!(m[1].is_empty() && m[2].is_empty());
    assert_eq!(m[3], vec![1]);
    // records already present stay in front
    let mut rec = vec![StepRec { rdrop: 2, lc: 3 }];
    let b2 = rng.poly(60);
    let _ = hgcd(&a, &b2, &mut rec);
    assert!(rec.len() > 1);
    assert_eq!((rec[0].rdrop, rec[0].lc), (2, 3));
}

#[test]
fn gcd_fast_on_long_inputs_with_planted_factors() {
    let mut rng = lib::poly::SplitMix::new(77);
    for &(dg, da, db) in &[(0usize, 400usize, 399usize), (5, 300, 250), (64, 200, 180), (150, 60, 90)] {
        let g = rand_poly(&mut rng, dg);
        let a = lib::poly::mul(&g, &rand_poly(&mut rng, da));
        let b = lib::poly::mul(&g, &rand_poly(&mut rng, db));
        let got = lib::fast_resultant::gcd_fast(&a, &b);
        assert_eq!(got, lib::poly::gcd(&a, &b));
        assert_eq!(*got.last().unwrap(), 1);
        assert!(pl::deg(&got) >= dg as i64);
        // swapped arguments give the same gcd
        assert_eq!(lib::fast_resultant::gcd_fast(&b, &a), got);
    }
    // one input zero: the monic form of the other
    let a = rand_poly(&mut rng, 90);
    assert_eq!(lib::fast_resultant::gcd_fast(&a, &[]), lib::fast_resultant::monic_poly(&a));
    assert_eq!(lib::fast_resultant::gcd_fast(&[0, 0], &a), lib::fast_resultant::monic_poly(&a));
}

#[test]
fn resultant_fast_equals_the_euclidean_resultant_on_long_inputs() {
    let mut rng = Rng(31337);
    for &(da, db) in &[(200usize, 150usize), (120, 119), (300, 60), (97, 96), (64, 49)] {
        let a = rng.poly(da);
        let b = rng.poly(db);
        let want = resultant_eea(&a, &b);
        assert_eq!(resultant_fast(&a, &b), want);
        assert_eq!(resultant_fast(&a, &b), pl::resultant(&a, &b));
        // swapped: Res(b, a) = (-1)^(deg a deg b) Res(a, b)
        let sign_flip = (da * db) % 2 == 1;
        let swapped = resultant_fast(&b, &a);
        if sign_flip {
            assert_eq!(swapped, (P - want) % P);
        } else {
            assert_eq!(swapped, want);
        }
    }
    // a planted common factor gives zero
    let g = rng.poly(5);
    let a = pl::mul(&g, &rng.poly(150));
    let b = pl::mul(&g, &rng.poly(140));
    assert_eq!(resultant_fast(&a, &b), 0);
}

#[test]
fn hgcd_quotients_multiply_to_the_matrix() {
    let mut rng = Rng(77);
    let a = rng.poly(150);
    let b = rng.poly(149);
    let mut rec: Vec<StepRec> = Vec::new();
    let mut qs: Vec<Vec<u32>> = Vec::new();
    let m = lib::fast_resultant::hgcd_quotients(&a, &b, &mut rec, &mut qs);
    assert!(!qs.is_empty());
    assert_eq!(qs.len(), rec.len());
    let mut prod = ident();
    for q in &qs {
        let step = [vec![], vec![1], vec![1], neg(q)];
        prod = matmul(&step, &prod);
    }
    for i in 0..4 {
        assert_eq!(pl::trim(&prod[i]), pl::trim(&m[i]));
    }
    // every quotient of a genuine remainder sequence has positive degree
    assert!(qs.iter().all(|q| q.len() >= 2));
}
