use game_theory::brown_robinson::BrownRobinson;
use game_theory::continuous::ContinuousConvexConcaveGame;
use game_theory::discretization::{solution_from_solver, DriverError, MAX_REFINEMENT};
use rand::SeedableRng;
use rand_chacha::ChaCha20Rng;

#[test]
fn window_size_and_accuracy_are_checked() {
    let game = ContinuousConvexConcaveGame::new([-1, 1, 0, 0, 0]);
    assert_eq!(game.iter(100, 0).err(), Some(DriverError::InvalidWindowSize));
    assert_eq!(game.iter(0, 3).err(), Some(DriverError::InvalidAccuracy));
    assert_eq!(game.iter(0, 0).err(), Some(DriverError::InvalidWindowSize));
    assert!(game.iter(1, 2_000_000).is_ok());
    assert_eq!(game.iter(100, 1).map(|d| d.n()).ok(), Some(1));
    assert!(MAX_REFINEMENT > 100);
}

#[test]
fn saddle_at_the_origin_settles_once_the_window_is_full() {
    // H = -x^2 + y^2 has its saddle point at (0, 0) on every grid.
    let game = ContinuousConvexConcaveGame::new([-1, 1, 0, 0, 0]);
    let mut driver = game.iter(1, 3).unwrap();
    let mut rng = ChaCha20Rng::seed_from_u64(1);
    for n in 2..=5 {
        let solution = driver.next(&mut rng).unwrap().unwrap();
        assert_eq!(driver.n(), n);
        assert_eq!((solution.x.num, solution.x.den), (0, n as i128));
        assert_eq!((solution.y.num, solution.y.den), (0, n as i128));
        assert_eq!(solution.h.num, 0);
    }
    assert!(driver.next(&mut rng).unwrap().is_none());
    assert!(driver.next(&mut rng).unwrap().is_none());
    assert_eq!(driver.n(), 5);
}

#[test]
fn saddle_off_the_origin() {
    // H = -(x - 1/2)^2 + (y - 1/2)^2 = -x^2 + y^2 + x - y: saddle at (1/2, 1/2).
    let game = ContinuousConvexConcaveGame::new([-1, 1, 0, 1, -1]);
    let mut driver = game.iter(1, 2).unwrap();
    let mut rng = ChaCha20Rng::seed_from_u64(2);
    let first = driver.next(&mut rng).unwrap().unwrap();
    // On the grid {0, 1/2, 1} the saddle is the middle point, with value 0.
    assert_eq!((first.x.num, first.x.den), (1, 2));
    assert_eq!((first.y.num, first.y.den), (1, 2));
    assert_eq!(first.h.num, 0);
}

#[test]
fn example_game_refines_with_the_iterative_method() {
    let game = ContinuousConvexConcaveGame::new([-150, 75, 180, -18, -144]);
    let mut driver = game.iter(5_000_000, 10).unwrap();
    let mut rng = ChaCha20Rng::seed_from_u64(3);
    for n in 2..=8 {
        match driver.next(&mut rng) {
            Ok(Some(solution)) => {
                assert_eq!(driver.n(), n);
                assert_eq!(solution.x.den, n as i128);
                assert_eq!(solution.y.den, n as i128);
                assert!(solution.x.num >= 0 && solution.x.num <= n as i128);
                assert!(solution.y.num >= 0 && solution.y.num <= n as i128);
                assert!(solution.h.den > 0);
                let h = solution.h.num as f64 / solution.h.den as f64;
                assert!((h + 45.9).abs() < 30.0, "h = {h}");
            }
            other => panic!("unexpected {:?}", other.map(|s| s.is_some())),
        }
    }
}

#[test]
fn estimate_from_a_solver_run() {
    let mut solver = BrownRobinson::new(vec![vec![0, 2, 0], vec![2, 0, 2], vec![0, 2, 0]]).unwrap();
    solver.advance(1, 0);
    solver.advance(2, 2);
    solver.advance(1, 2);
    let solution = solution_from_solver(&solver, 2);
    assert_eq!((solution.x.num, solution.x.den), (1, 2));
    assert_eq!((solution.y.num, solution.y.den), (2, 2));
    let estimate = solver.price_estimation();
    assert_eq!(solution.h.num, estimate.num);
    assert_eq!(solution.h.den, estimate.den * 4);
}
