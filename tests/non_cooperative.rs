use game_theory::highlight::{Highlight, HighlightableCell, WithHighlighting};
use game_theory::non_cooperative::{BiMatrixGame, Game, Pair};
use rand::SeedableRng;
use rand_chacha::ChaCha20Rng;

fn prisoners_dilemma() -> BiMatrixGame {
    Game::new(vec![
        vec![Pair(-5, -5), Pair(0, -10)],
        vec![Pair(-10, 0), Pair(-1, -1)],
    ])
}

#[test]
fn prisoners_dilemma_equilibrium_and_efficient_outcomes() {
    let game = prisoners_dilemma();
    let nash: Vec<(usize, usize)> = game.nash_equilibriums().iter().map(|s| s.coordinate).collect();
    assert_eq!(nash, vec![(0, 0)]);
    let pareto: Vec<(usize, usize)> = game.pareto_efficients().iter().map(|s| s.coordinate).collect();
    assert_eq!(pareto, vec![(0, 1), (1, 0), (1, 1)]);
    assert_eq!(game.nash_equilibriums()[0].wins, Pair(-5, -5));
    // The only equilibrium is not efficient.
    assert!(game.efficient_equilibriums().is_empty());
}

#[test]
fn family_conflict_has_two_equilibria() {
    let game = Game::new(vec![
        vec![Pair(4, 1), Pair(0, 0)],
        vec![Pair(0, 0), Pair(1, 4)],
    ]);
    let nash: Vec<(usize, usize)> = game.nash_equilibriums().iter().map(|s| s.coordinate).collect();
    assert_eq!(nash, vec![(0, 0), (1, 1)]);
    let pareto: Vec<(usize, usize)> = game.pareto_efficients().iter().map(|s| s.coordinate).collect();
    assert_eq!(pareto, vec![(0, 0), (1, 1)]);
    let both: Vec<(usize, usize)> = game.efficient_equilibriums().iter().map(|s| s.coordinate).collect();
    assert_eq!(both, vec![(0, 0), (1, 1)]);
}

#[test]
fn random_bi_matrix_game_has_the_requested_shape() {
    let mut rng = ChaCha20Rng::seed_from_u64(9);
    let game = Game::random(&mut rng, 3, 4, -50, 50);
    assert_eq!(game.0.len(), 3);
    for row in &game.0 {
        assert_eq!(row.len(), 4);
        for cell in row {
            assert!((-50..50).contains(&cell.0));
            assert!((-50..50).contains(&cell.1));
        }
    }
    let first = game.0[0][0];
    assert!(game.0.iter().flatten().any(|cell| *cell != first));
    let nash = game.nash_equilibriums();
    for s in &nash {
        let (i, j) = s.coordinate;
        assert_eq!(s.wins, game.0[i][j]);
    }
}

#[test]
fn highlighting_marks_one_cell() {
    let mut cell = HighlightableCell::Normal(5);
    cell.highlight('(', ')');
    assert_eq!(cell, HighlightableCell::Highlighted(5, '(', ')'));
    cell.highlight('N', ' ');
    assert_eq!(cell, HighlightableCell::Highlighted(5, 'N', ' '));

    let mut grid = vec![vec![1, 2, 3], vec![4, 5, 6]].with_highlighting();
    grid.highlight(1, 2, '(', ')');
    assert_eq!(grid[1][2], HighlightableCell::Highlighted(6, '(', ')'));
    assert_eq!(grid[0][0], HighlightableCell::Normal(1));
    grid.highlight(5, 5, '*', '*');
    assert_eq!(grid.len(), 2);
}
