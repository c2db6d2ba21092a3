use lib::bipoly::{
    add, constant, cube, deg_x, deg_y, eval_x, eval_y, from_x_poly, mul, scalar, sub, trim,
    var_x, var_y,
};
use lib::poly;
use lib::P;

#[test]
fn constructors() {
    assert_eq!(var_x(), vec![vec![0u32, 1]]);
    assert_eq!(var_y(), vec![vec![], vec![1u32]]);
    assert_eq!(constant(P), Vec::<Vec<u32>>::new());
    assert_eq!(constant(P + 7), vec![vec![7u32]]);
    assert_eq!(from_x_poly(&[0, 0]), Vec::<Vec<u32>>::new());
    assert_eq!(from_x_poly(&[4, 0]), vec![vec![4u32]]);
}

#[test]
fn trim_and_degrees() {
    let f = vec![vec![1u32], vec![], vec![0u32, 0, 2], vec![], vec![]];
    assert_eq!(trim(&f), vec![vec![1u32], vec![], vec![0u32, 0, 2]]);
    assert_eq!(deg_y(&f), 2);
    assert_eq!(deg_x(&f), 2);
    assert_eq!(deg_y(&[]), -1);
    assert_eq!(deg_x(&[]), -1);
}

#[test]
fn arithmetic_matches_evaluation() {
    // f = X + Y, g = 2 + X Y
    let f = add(&var_x(), &var_y());
    let g = add(&constant(2), &mul(&var_x(), &var_y()));
    let h = mul(&f, &g);
    let c = cube(&f);
    for x in [0u32, 1, 5, 1000] {
        for y in [0u32, 3, 77] {
            let fx = poly::eval(&eval_x(&f, x), y) as u64;
            let gx = poly::eval(&eval_x(&g, x), y) as u64;
            let hx = poly::eval(&eval_x(&h, x), y) as u64;
            assert_eq!(hx, fx * gx % P as u64);
            let cx = poly::eval(&eval_x(&c, x), y) as u64;
            assert_eq!(cx, fx * fx % P as u64 * fx % P as u64);
            let hy = poly::eval(&eval_y(&h, y), x) as u64;
            assert_eq!(hy, hx);
        }
    }
    assert_eq!(sub(&f, &f), Vec::<Vec<u32>>::new());
    assert_eq!(scalar(&f, 0), Vec::<Vec<u32>>::new());
    assert_eq!(scalar(&f, 2), vec![vec![0u32, 2], vec![2u32]]);
}
