use game_theory::continuous::ContinuousConvexConcaveGame;
use game_theory::fraction::Fraction;

fn frac(num: i128, den: i128) -> Fraction {
    Fraction { num, den }
}

fn same(a: &Fraction, num: i128, den: i128) -> bool {
    a.num * den == num * a.den
}

#[test]
fn kernel_and_derivatives() {
    let game = ContinuousConvexConcaveGame::new([1, 2, 3, 4, 5]);
    let x = frac(1, 2);
    let y = frac(1, 3);
    // 1/4 + 2/9 + 3/6 + 4/2 + 5/3 = 167/36
    assert!(same(&game.compute(x, y), 167, 36));
    // 2 * 1/2 + 3 * 1/3 + 4
    assert!(same(&game.h_x(x, y), 6, 1));
    // 2 * 2 * 1/3 + 3 * 1/2 + 5
    assert!(same(&game.h_y(x, y), 47, 6));
    assert_eq!(game.h_xx(), 2);
    assert_eq!(game.h_yy(), 4);
}

#[test]
fn formulas_of_x_and_y() {
    let game = ContinuousConvexConcaveGame::new([1, 2, 3, 4, 5]);
    let (fx, fy) = game.x_y_formulas();
    assert_eq!((fx.a, fx.c, fx.d), (1, 3, 4));
    assert_eq!((fy.b, fy.c, fy.e), (2, 3, 5));
    let x = fx.compute(frac(1, 3));
    assert!(x.den > 0);
    assert!(same(&x, -5, 2));
    let y = fy.compute(frac(1, 2));
    assert!(y.den > 0);
    assert!(same(&y, -13, 8));
}

#[test]
fn negative_coefficient_formula_has_positive_denominator() {
    let game = ContinuousConvexConcaveGame::new([-3, 2, 1, 6, 0]);
    let (fx, _) = game.x_y_formulas();
    // x = (-y - 6) / -6 at y = 0
    let x = fx.compute(frac(0, 1));
    assert!(x.den > 0);
    assert!(same(&x, 1, 1));
}

#[test]
fn analytic_solution_of_an_example_game() {
    // H = -3x^2 + 3/2 y^2 + 18/5 xy - 18/50 x - 72/25 y, times 50.
    let game = ContinuousConvexConcaveGame::new([-150, 75, 180, -18, -144]);
    let solution = game.solve_analytically();
    assert!(same(&solution.x, 3, 10));
    assert!(same(&solution.y, 6, 10));
    // 50 * H(0.3, 0.6) = -45.9
    assert!(same(&solution.h, -459, 10));
    assert!(solution.x.den > 0);
}

#[test]
fn analytic_solution_is_a_stationary_point() {
    let game = ContinuousConvexConcaveGame::new([-7, 5, 3, 2, -11]);
    let s = game.solve_analytically();
    let h_x = game.h_x(s.x, s.y);
    let h_y = game.h_y(s.x, s.y);
    assert_eq!(h_x.num, 0);
    assert_eq!(h_y.num, 0);
    let h = game.compute(s.x, s.y);
    assert!(same(&h, s.h.num, s.h.den));
}
