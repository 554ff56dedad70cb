use game_theory::zero_sum::Game;

#[test]
fn lower_price_never_exceeds_upper_price() {
    let games = vec![
        vec![vec![2, 1, 3], vec![3, 0, 1], vec![1, 2, 1]],
        vec![vec![4, 1], vec![0, 3]],
        vec![vec![8, 12, 10], vec![1, 6, 19], vec![17, 11, 11]],
        vec![vec![-5]],
        vec![vec![1, -1], vec![-1, 1]],
        vec![vec![0, 2, -3, 7], vec![5, -1, 4, 4], vec![3, 3, 3, 3], vec![-2, 8, 1, 0]],
    ];
    for m in games {
        let game = Game::new(m);
        let (_, low) = game.lowest_price();
        let (_, high) = game.highest_price();
        assert!(low <= high);
    }
}

#[test]
fn rectangular_games_have_prices() {
    let game = Game::new(vec![vec![1, 2, 3], vec![4, 5, 6]]);
    assert_eq!(game.min_win_a(), vec![1, 4]);
    assert_eq!(game.max_loss_b(), vec![4, 5, 6]);
    assert_eq!(game.lowest_price(), (1, 4));
    assert_eq!(game.highest_price(), (0, 4));
}

#[test]
fn first_index_wins_ties() {
    let game = Game::new(vec![vec![1, 1], vec![1, 1]]);
    assert_eq!(game.lowest_price(), (0, 1));
    assert_eq!(game.highest_price(), (0, 1));
}

#[test]
fn equalizing_strategies_reproduce_the_value() {
    let game = Game::new(vec![vec![2, 1, 3], vec![3, 0, 1], vec![1, 2, 1]]);
    // A's mix (2, 1, 5) / 8 earns 12 / 8 = 3/2 against every column.
    for column in 0..3 {
        let mut q = vec![0, 0, 0];
        q[column] = 1;
        assert_eq!(game.expected_payoff(&vec![2, 1, 5], &q), 12);
    }
    // Against any mix of B the payoff is the value times B's total weight.
    assert_eq!(game.expected_payoff(&vec![2, 1, 5], &vec![2, 1, 1]), 12 * 4);
    assert_eq!(game.expected_payoff(&vec![2, 1, 5], &vec![0, 3, 7]), 12 * 10);
    // B's mix (1, 1, 0) / 2 concedes 3 / 2 to every row.
    let transposed = Game::new(vec![vec![2, 3, 1], vec![1, 0, 2], vec![3, 1, 1]]);
    assert_eq!(transposed.expected_payoff(&vec![1, 1, 0], &vec![1, 1, 1]), 3 * 3);
}

#[test]
fn expected_payoff_of_pure_strategies_is_the_entry() {
    let game = Game::new(vec![vec![4, 1], vec![0, 3]]);
    assert_eq!(game.expected_payoff(&vec![1, 0], &vec![0, 1]), 1);
    assert_eq!(game.expected_payoff(&vec![0, 1], &vec![0, 1]), 3);
    assert_eq!(game.expected_payoff(&vec![1, 1], &vec![1, 1]), 8);
}

#[test]
fn augmented_system_of_the_textbook_game() {
    let game = Game::new(vec![vec![2, 1, 3], vec![3, 0, 1], vec![1, 2, 1]]);
    let (a, b) = game.augmented_system();
    assert_eq!(
        a,
        vec![
            vec![2, 3, 1, -1],
            vec![1, 0, 2, -1],
            vec![3, 1, 1, -1],
            vec![1, 1, 1, 0],
        ]
    );
    assert_eq!(b, vec![0, 0, 0, 1]);
    // A's mix (2, 1, 5) with value 12, all over 8, solves it scaled by 8.
    let x = [2, 1, 5, 12];
    let product: Vec<i64> = a.iter().map(|row| row.iter().zip(&x).map(|(r, v)| r * v).sum()).collect();
    assert_eq!(product, vec![0, 0, 0, 8]);
    assert_eq!(game.expected_payoff(&vec![2, 1, 5], &vec![1, 2, 3]), 12 * 6);
}

#[test]
fn transposed_game_swaps_roles() {
    let game = Game::new(vec![vec![4, 1], vec![0, 3]]);
    assert_eq!(game.transposed().0, vec![vec![4, 0], vec![1, 3]]);
    assert_eq!(game.transposed().augmented_system().0, vec![vec![4, 1, -1], vec![0, 3, -1], vec![1, 1, 0]]);
}
