use game_theory::brown_robinson::{BrownRobinson, SolverError, MAX_PAYOFF};
use game_theory::fraction::Fraction;
use game_theory::zero_sum::Game;
use rand::SeedableRng;
use rand_chacha::ChaCha20Rng;

fn value(f: &Fraction) -> f64 {
    f.num as f64 / f.den as f64
}

/// `a <= b` for fractions with positive denominators.
fn le(a: &Fraction, b: &Fraction) -> bool {
    a.num * b.den <= b.num * a.den
}

fn textbook() -> Vec<Vec<i64>> {
    vec![vec![2, 1, 3], vec![3, 0, 1], vec![1, 2, 1]]
}

#[test]
fn construction_rejects_bad_matrices() {
    assert_eq!(BrownRobinson::new(vec![]).err(), Some(SolverError::EmptyMatrix));
    assert_eq!(
        BrownRobinson::new(vec![vec![1, 2], vec![3]]).err(),
        Some(SolverError::NotSquare)
    );
    assert_eq!(
        BrownRobinson::new(vec![vec![1, 2, 3], vec![4, 5, 6]]).err(),
        Some(SolverError::NotSquare)
    );
    assert_eq!(
        BrownRobinson::new(vec![vec![MAX_PAYOFF + 1]]).err(),
        Some(SolverError::PayoffOutOfRange)
    );
    assert!(BrownRobinson::new(vec![vec![-MAX_PAYOFF]]).is_ok());
}

#[test]
fn textbook_matrix_bounds() {
    let solver = BrownRobinson::new(textbook()).unwrap();
    assert_eq!(solver.bounds(), (1, 2));
    assert_eq!(solver.k(), 0);
}

#[test]
fn textbook_matrix_estimate_converges_to_its_value() {
    let mut rng = ChaCha20Rng::seed_from_u64(7);
    let mut solver = BrownRobinson::new(textbook()).unwrap();
    for _ in 0..2000 {
        solver.next(&mut rng).unwrap();
    }
    let estimate = value(&solver.price_estimation());
    // The game's value is 3/2: A's mix (1/4, 1/8, 5/8) guarantees it and
    // B's mix (1/2, 1/2, 0) concedes no more.
    assert!((estimate - 1.5).abs() < 0.02, "estimate {estimate}");
    let (low, high) = solver.min_max_prices();
    assert!(value(&low) <= 1.5 + 1e-12);
    assert!(value(&high) >= 1.5 - 1e-12);
}

#[test]
fn saddle_matrix_bounds_collapse_once_players_lock_on() {
    // Row minima 3, 1; column maxima 3, 5: a saddle point at (0, 0).
    let mut solver = BrownRobinson::new(vec![vec![3, 5], vec![1, 4]]).unwrap();
    assert_eq!(solver.bounds(), (3, 3));
    let row = solver.advance(0, 0);
    assert_eq!(row.iteration, 1);
    assert_eq!(row.a_score, vec![3, 1]);
    assert_eq!(row.b_score, vec![3, 5]);
    assert_eq!(value(&row.high_price), 3.0);
    assert_eq!(value(&row.low_price), 3.0);
    assert_eq!(row.epsilon.num, 0);
    let estimate = solver.price_estimation();
    assert_eq!(value(&estimate), 3.0);
}

#[test]
fn two_by_two_without_saddle_point() {
    let solver = BrownRobinson::new(vec![vec![4, 1], vec![0, 3]]).unwrap();
    assert_eq!(solver.bounds(), (1, 3));
}

#[test]
fn saddle_matrix_estimate_converges_from_a_random_start() {
    let mut rng = ChaCha20Rng::seed_from_u64(11);
    let mut solver = BrownRobinson::new(vec![vec![3, 5], vec![1, 4]]).unwrap();
    for _ in 0..1000 {
        solver.next(&mut rng).unwrap();
    }
    assert!((value(&solver.price_estimation()) - 3.0).abs() < 0.01);
}

#[test]
fn running_bounds_tighten_and_use_counts_sum_to_k() {
    let mut rng = ChaCha20Rng::seed_from_u64(3);
    let mut solver = BrownRobinson::new(textbook()).unwrap();
    let first = solver.next(&mut rng).unwrap();
    assert_eq!(first.iteration, 1);
    let mut previous = solver.min_max_prices();
    let mut previous_eps = first.epsilon;
    for k in 2..300usize {
        let row = solver.next(&mut rng).unwrap();
        assert_eq!(row.iteration, k);
        let (low, high) = solver.min_max_prices();
        assert!(le(&low, &high));
        let estimate = solver.price_estimation();
        assert!(le(&low, &estimate) && le(&estimate, &high));
        assert!(row.epsilon.num >= 0);
        assert!(le(&high, &previous.1));
        assert!(le(&previous.0, &low));
        assert!(le(&row.epsilon, &previous_eps));
        let (a, b) = solver.strategies_used();
        assert_eq!(a.iter().sum::<usize>(), k);
        assert_eq!(b.iter().sum::<usize>(), k);
        previous = (low, high);
        previous_eps = row.epsilon;
    }
}

#[test]
fn record_reports_scores_and_prices() {
    let mut solver = BrownRobinson::new(textbook()).unwrap();
    solver.advance(1, 2);
    // A's scores are column 2, B's are row 1.
    let row = solver.advance(0, 1);
    assert_eq!(row.a_score, vec![3 + 1, 1 + 0, 1 + 2]);
    assert_eq!(row.b_score, vec![3 + 2, 0 + 1, 1 + 3]);
    assert_eq!((row.high_price.num, row.high_price.den), (4, 2));
    assert_eq!((row.low_price.num, row.low_price.den), (1, 2));
    let (a, b) = solver.strategies_used();
    assert_eq!(a, vec![1, 1, 0]);
    assert_eq!(b, vec![0, 1, 1]);
    assert_eq!(solver.k(), 2);
}

#[test]
fn best_responses_follow_the_scores() {
    let mut rng = ChaCha20Rng::seed_from_u64(5);
    let mut solver = BrownRobinson::new(textbook()).unwrap();
    let mut row = solver.next(&mut rng).unwrap();
    for _ in 0..50 {
        let max_a = *row.a_score.iter().max().unwrap();
        let min_b = *row.b_score.iter().min().unwrap();
        let next = solver.next(&mut rng).unwrap();
        assert_eq!(row.a_score[next.a_strategy], max_a);
        assert_eq!(row.b_score[next.b_strategy], min_b);
        row = next;
    }
}

#[test]
fn game_accessor_and_pure_prices() {
    let solver = BrownRobinson::new(textbook()).unwrap();
    let game: &Game = solver.game();
    assert_eq!(game.0, textbook());
    assert_eq!(game.min_win_a(), vec![1, 0, 1]);
    assert_eq!(game.max_loss_b(), vec![3, 2, 3]);
    assert_eq!(game.lowest_price(), (0, 1));
    assert_eq!(game.highest_price(), (1, 2));
}
