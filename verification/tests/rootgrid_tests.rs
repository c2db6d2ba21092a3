use lib::poly as pl;
use lib::rootgrid::{
    full_cofactor, grid_seed, neg_poly, resultant_at_x, resultant_poly, residual_polys_at_x, root_first_state_at_x,
    root_mul_g_at_x, sample_resultants, solve_grid_seed,
};
use lib::zerotest::{flatten_coeffs, root_first_coeffs, root_first_hash_residual, verify_zerotest, Fp2};
use lib::{Poseidon1, P};

#[test]
fn grid_seed_layout() {
    assert_eq!(grid_seed(4, 5, 3), 0x501E_0000 + (4u64 << 16) + (5u64 << 8) + 3);
}

#[test]
fn root_times_cofactor_coefficient() {
    // (x + Y s)(a + b s) = (x a + 3 b Y) + (x b + a Y) s
    let (c0, c1) = root_mul_g_at_x(10, Fp2::new(2, 5));
    assert_eq!(c0, vec![20, 15]);
    assert_eq!(c1, vec![50, 2]);
    assert_eq!(neg_poly(&[1, 2]), vec![P - 1, P - 2]);
}

#[test]
fn grid_state_specialises_to_the_concrete_vector() {
    let g = full_cofactor(7);
    let x = 123;
    let state = root_first_state_at_x(x, &g);
    for y in [0u32, 9, 4_000_000, P - 1] {
        let concrete = flatten_coeffs(&root_first_coeffs(Fp2::new(x, y), &g));
        let at_y: Vec<u32> = state.iter().map(|f| pl::eval(f, y)).collect();
        assert_eq!(at_y, concrete.to_vec());
    }
}

#[test]
fn grid_residuals_specialise_to_hash_minus_root() {
    let pos = Poseidon1::new_canonical(3, 16, 2, 1);
    let g = full_cofactor(8);
    let x = 55;
    let (f0, f1) = residual_polys_at_x(&pos, &g, x);
    for y in [1u32, 2, 777_777] {
        let want = root_first_hash_residual(&pos, Fp2::new(x, y), &g);
        assert_eq!(Fp2::new(pl::eval(&f0, y), pl::eval(&f1, y)), want);
    }
    assert_eq!(resultant_at_x(&pos, &g, x), pl::resultant(&f0, &f1));
    let ys = sample_resultants(&pos, &g, &[x, x + 1]);
    assert_eq!(ys[0], pl::resultant(&f0, &f1));
}

#[test]
fn interpolated_eliminant_is_stable_and_has_the_expected_degree() {
    let pos = Poseidon1::new_canonical(3, 16, 2, 1);
    let g = full_cofactor(9);
    let deg = 243;
    let r = resultant_poly(&pos, &g, deg).expect("guards agree");
    assert!(pl::deg(&r) <= deg as i64);
    // agrees with a fresh resultant off the grid
    let x = 1000u32;
    assert_eq!(pl::eval(&r, x), resultant_at_x(&pos, &g, x));
}

#[test]
fn grid_search_reports_only_verified_hits() {
    let pos = Poseidon1::new_canonical(3, 16, 2, 1);
    let rep = solve_grid_seed(2, 1, 0);
    assert!(rep.stable);
    if let Some(h) = rep.hit {
        assert!(verify_zerotest(&pos, &h.p_hat));
        assert_eq!(h.seed, grid_seed(2, 1, 0));
        let p_hat = flatten_coeffs(&root_first_coeffs(h.root, &rep.cofactor));
        assert_eq!(p_hat, h.p_hat);
    }
}
