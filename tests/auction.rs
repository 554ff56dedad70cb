use game_theory::auction::{bets, winner};
use game_theory::fraction::Fraction;
use game_theory::zero_sum::{Game, RowsError};

#[test]
fn bids_shade_values_by_n_minus_one_over_n() {
    let b = bets(&vec![100, 40, 75, 20]);
    let pairs: Vec<(i128, i128)> = b.iter().map(|f| (f.num, f.den)).collect();
    assert_eq!(pairs, vec![(300, 4), (120, 4), (225, 4), (60, 4)]);
    let single = bets(&vec![7]);
    assert_eq!((single[0].num, single[0].den), (0, 1));
}

#[test]
fn highest_bid_wins_and_the_last_one_on_a_tie() {
    assert!(winner(&vec![]).is_none());
    let bids = bets(&vec![100, 40, 75, 20]);
    let (index, bid) = winner(&bids).unwrap();
    assert_eq!(index, 0);
    assert_eq!((bid.num, bid.den), (300, 4));
    let tie = vec![
        Fraction { num: 1, den: 2 },
        Fraction { num: 2, den: 4 },
        Fraction { num: 1, den: 3 },
    ];
    assert_eq!(winner(&tie).unwrap().0, 1);
}

#[test]
fn matrix_from_rows() {
    let game = Game::from_rows(vec![vec![1, 2, 3], vec![4, 5, 6]]).unwrap();
    assert_eq!(game.0, vec![vec![1, 2, 3], vec![4, 5, 6]]);
    assert_eq!(
        Game::from_rows(vec![vec![1, 2], vec![3]]).err(),
        Some(RowsError::RaggedRows)
    );
    assert_eq!(
        Game::from_rows(vec![vec![1], vec![3, 4]]).err(),
        Some(RowsError::RaggedRows)
    );
    assert!(Game::from_rows(vec![]).unwrap().0.is_empty());
}
