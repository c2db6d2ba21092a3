use lib::poly as pl;
use lib::rootvar::{
    cofactor_plane_polys_at_x, cofactor_polys_at_x, compression_hash_poly, concrete_cofactor,
    concrete_plane_cofactor, expected_degree, fixed_cofactor, fixed_root, fp2_poly_const, fp2_poly_neg,
    fp2_poly_sub, fp2_scale, plane_dirs, plane_residual_polys_at_x, plane_resultant_at_x,
    residual_polys_at_x, resultant_at_x, root_first_plane_state_at_x, root_first_state_at_x, root_mul_poly,
    sample_resultants, scout_seed, solve_from_samples, solve_plane_seed, solve_seed, CofactorFamily,
};
use lib::zerotest::{flatten_coeffs, root_first_coeffs, root_first_hash_residual, verify_zerotest, Fp2};
use lib::{Poseidon1, P};

#[test]
fn scout_seed_layout() {
    assert_eq!(scout_seed(4, 5, 0), 0xA17E_0000 + (4u64 << 24) + (5u64 << 16));
    assert_eq!(scout_seed(2, 3, 7), 0xA17E_0000 + (2u64 << 24) + (3u64 << 16) + 7);
}

#[test]
fn expected_degree_is_a_power_of_three() {
    assert_eq!(expected_degree(4, 5), 1_594_323);
    assert_eq!(expected_degree(2, 1), 243);
    assert_eq!(expected_degree(0, 0), 1);
}

#[test]
fn fixed_draws_are_nonzero_and_reduced() {
    let seed = scout_seed(4, 5, 0);
    let root = fixed_root(seed);
    assert!(!root.is_zero() && root.c0 < P && root.c1 < P);
    let base = fixed_cofactor(seed);
    assert!(base.iter().all(|z| !z.is_zero() && z.c0 < P && z.c1 < P));
    let (xd, yd) = plane_dirs(seed, 3);
    assert!(xd.iter().chain(yd.iter()).all(|z| z.c0 < P && z.c1 < P));
    // the plane directions depend on the plane index
    assert_ne!(plane_dirs(seed, 0).0, plane_dirs(seed, 1).0);
}

#[test]
fn fp2_polynomial_helpers() {
    let z = Fp2::new(5, 0);
    assert_eq!(fp2_poly_const(z), (vec![5], vec![]));
    assert_eq!(fp2_scale(Fp2::new(2, 3), 4), Fp2::new(8, 12));
    let a = (vec![1, 2], vec![3]);
    let b = (vec![1], vec![3, 4]);
    assert_eq!(fp2_poly_sub(&a, &b), (vec![0, 2], vec![0, P - 4]));
    assert_eq!(fp2_poly_neg(&a), (vec![P - 1, P - 2], vec![P - 3]));
    // (2 + 3s)(1 + Y s) with s^2 = 3: (2 + 9Y) + (3 + 2Y) s
    let g = (vec![1], vec![0, 1]);
    assert_eq!(root_mul_poly(Fp2::new(2, 3), &g), (vec![2, 9], vec![3, 2]));
}

#[test]
fn cofactor_line_has_the_variable_in_one_slot() {
    let base = fixed_cofactor(11);
    let g = cofactor_polys_at_x(&base, 2, 40);
    assert_eq!(g.len(), 7);
    assert_eq!(g[2], (vec![40], vec![0, 1]));
    assert_eq!(g[0], fp2_poly_const(base[0]));
    let c = concrete_cofactor(&base, 2, 40, 9);
    assert_eq!(c[2], Fp2::new(40, 9));
    assert_eq!(c[0], base[0]);
}

fn eval_state(state: &[Vec<u32>], y: u32) -> Vec<u32> {
    state.iter().map(|f| pl::eval(f, y)).collect()
}

#[test]
fn symbolic_state_specialises_to_the_concrete_vector() {
    let seed = scout_seed(2, 1, 0);
    let root = fixed_root(seed);
    let base = fixed_cofactor(seed);
    let x = 17;
    let state = root_first_state_at_x(root, &base, 0, x);
    for y in [0u32, 1, 5, 123456, P - 1] {
        let concrete = flatten_coeffs(&root_first_coeffs(root, &concrete_cofactor(&base, 0, x, y)));
        assert_eq!(eval_state(&state, y), concrete.to_vec());
    }
}

#[test]
fn residuals_specialise_to_hash_minus_root() {
    let (rf, rp) = (2usize, 1usize);
    let seed = scout_seed(rf, rp, 0);
    let pos = Poseidon1::new_canonical(3, 16, rf, rp);
    let root = fixed_root(seed);
    let base = fixed_cofactor(seed);
    for &(var_idx, x) in &[(0usize, 3u32), (6, 1000)] {
        let (f0, f1) = residual_polys_at_x(&pos, root, &base, var_idx, x);
        for y in [2u32, 77, 999_999] {
            let want = root_first_hash_residual(&pos, root, &concrete_cofactor(&base, var_idx, x, y));
            assert_eq!(Fp2::new(pl::eval(&f0, y), pl::eval(&f1, y)), want);
        }
        assert_eq!(resultant_at_x(&pos, root, &base, var_idx, x), pl::resultant(&f0, &f1));
    }
}

#[test]
fn plane_residuals_specialise_to_hash_minus_root() {
    let (rf, rp) = (2usize, 1usize);
    let seed = scout_seed(rf, rp, 1);
    let pos = Poseidon1::new_canonical(3, 16, rf, rp);
    let root = fixed_root(seed);
    let base = fixed_cofactor(seed);
    let (xd, yd) = plane_dirs(seed, 0);
    let x = 29;
    let g = cofactor_plane_polys_at_x(&base, &xd, &yd, x);
    assert_eq!(g.len(), 7);
    let state = root_first_plane_state_at_x(root, &base, &xd, &yd, x);
    let (f0, f1) = plane_residual_polys_at_x(&pos, root, &base, &xd, &yd, x);
    for y in [4u32, 31337] {
        let point = concrete_plane_cofactor(&base, &xd, &yd, x, y);
        let concrete = flatten_coeffs(&root_first_coeffs(root, &point));
        assert_eq!(eval_state(&state, y), concrete.to_vec());
        let want = root_first_hash_residual(&pos, root, &point);
        assert_eq!(Fp2::new(pl::eval(&f0, y), pl::eval(&f1, y)), want);
    }
    assert_eq!(plane_resultant_at_x(&pos, root, &base, &xd, &yd, x), pl::resultant(&f0, &f1));
}

#[test]
fn compression_over_polynomials_matches_the_numeric_hash() {
    let (rf, rp) = (2usize, 1usize);
    let pos = Poseidon1::new_canonical(3, 16, rf, rp);
    // state: word i is the polynomial i + (i+1) Y
    let input: Vec<Vec<u32>> = (0..16u32).map(|i| pl::trim(&[i, i + 1])).collect();
    let out = compression_hash_poly(&pos, &input);
    let y = 12345u32;
    let mut words = [0u32; 16];
    for i in 0..16 {
        words[i] = pl::eval(&input[i], y);
    }
    let h = pos.compression_mode_hash(&words, 16);
    assert_eq!(eval_state(&out, y), h);
}

#[test]
fn sampled_resultants_match_single_resultants() {
    let (rf, rp) = (2usize, 1usize);
    let seed = scout_seed(rf, rp, 0);
    let pos = Poseidon1::new_canonical(3, 16, rf, rp);
    let root = fixed_root(seed);
    let base = fixed_cofactor(seed);
    let xs = vec![1u32, 2, 3, 10];
    let ys = sample_resultants(&pos, root, &base, 1, &xs);
    for (x, y) in xs.iter().zip(ys.iter()) {
        assert_eq!(*y, resultant_at_x(&pos, root, &base, 1, *x));
    }
}

#[test]
fn seed_search_reports_only_verified_hits() {
    let (rf, rp) = (2usize, 1usize);
    let pos = Poseidon1::new_canonical(3, 16, rf, rp);
    let rep = solve_seed(rf, rp, 0, 0);
    assert_eq!(rep.elim_degree, 243);
    assert!(rep.stable);
    if let Some(h) = rep.hit {
        assert!(verify_zerotest(&pos, &h.p_hat));
        assert_eq!(h.seed, scout_seed(rf, rp, 0));
        assert_eq!(h.root, rep.root);
    }
}

#[test]
fn plane_search_reports_only_verified_hits() {
    let (rf, rp) = (2usize, 1usize);
    let pos = Poseidon1::new_canonical(3, 16, rf, rp);
    let rep = solve_plane_seed(rf, rp, 0, 0);
    assert!(rep.stable);
    if let Some(h) = rep.hit {
        assert!(verify_zerotest(&pos, &h.p_hat));
        assert_eq!(h.plane_idx, 0);
    }
}

#[test]
fn samples_must_cover_the_grid() {
    let xs = vec![1u32, 2, 3];
    let ys = vec![0u32, 0, 0];
    assert!(solve_from_samples(2, 1, 0, 0, &xs, &ys).is_none());
}

#[test]
fn solving_from_samples_agrees_with_sampling() {
    let (rf, rp) = (2usize, 1usize);
    let seed = scout_seed(rf, rp, 0);
    let pos = Poseidon1::new_canonical(3, 16, rf, rp);
    let root = fixed_root(seed);
    let base = fixed_cofactor(seed);
    let n = expected_degree(rf, rp) + 1;
    let xs: Vec<u32> = (1..=n as u32).collect();
    let ys = sample_resultants(&pos, root, &base, 0, &xs);
    let rep = solve_from_samples(rf, rp, 0, 0, &xs, &ys).unwrap();
    let direct = solve_seed(rf, rp, 0, 0);
    assert_eq!(rep.elim_degree, direct.elim_degree);
    assert_eq!(rep.x_roots, direct.x_roots);
    assert_eq!(rep.hit.map(|h| (h.x, h.y)), direct.hit.map(|h| (h.x, h.y)));
    let _ = CofactorFamily::Line { base, var_idx: 0 };
}

#[test]
fn unreduced_samples_are_taken_mod_p() {
    let (rf, rp) = (2usize, 1usize);
    let seed = scout_seed(rf, rp, 0);
    let pos = Poseidon1::new_canonical(3, 16, rf, rp);
    let root = fixed_root(seed);
    let base = fixed_cofactor(seed);
    let n = expected_degree(rf, rp) + 1;
    let xs: Vec<u32> = (1..=n as u32).collect();
    let ys = sample_resultants(&pos, root, &base, 0, &xs);
    let xs_big: Vec<u32> = xs.iter().map(|&x| x + P).collect();
    let ys_big: Vec<u32> = ys.iter().map(|&y| y + P).collect();
    let a = solve_from_samples(rf, rp, 0, 0, &xs, &ys).unwrap();
    let b = solve_from_samples(rf, rp, 0, 0, &xs_big, &ys_big).unwrap();
    assert_eq!(a.elim_degree, b.elim_degree);
    assert_eq!(a.x_roots, b.x_roots);
    assert_eq!(a.stable, b.stable);
    assert_eq!(a.hit.map(|h| (h.x, h.y)), b.hit.map(|h| (h.x, h.y)));
}
