use game_theory::cooperative::{Coalition, CooperativeGame};

#[test]
fn test_player_mask() {
    let game = CooperativeGame::new(vec![1, 2, 3, 4, 5, 6, 7, 8]).unwrap();
    assert_eq!(game.player_mask(0), 0b100);
    assert_eq!(game.player_mask(1), 0b010);
    assert_eq!(game.player_mask(2), 0b001);
}

#[test]
fn factorial() {
    assert_eq!(game_theory::cooperative::factorial(0), 1);
    assert_eq!(game_theory::cooperative::factorial(1), 1);
    assert_eq!(game_theory::cooperative::factorial(2), 2);
    assert_eq!(game_theory::cooperative::factorial(3), 6);
}

#[test]
fn factorial_of_twenty() {
    assert_eq!(game_theory::cooperative::factorial(20), 2_432_902_008_176_640_000);
}

#[test]
fn characteristic_function_length_must_be_a_power_of_two() {
    assert!(CooperativeGame::new(vec![]).is_err());
    assert!(CooperativeGame::new(vec![7]).is_err());
    assert_eq!(CooperativeGame::new(vec![1, 2, 3]).err(), Some(vec![1, 2, 3]));
    assert!(CooperativeGame::new(vec![0, 1]).is_ok());
    assert!(CooperativeGame::new(vec![0; 16]).is_ok());
}

#[test]
fn coalitions_and_worths() {
    let game = CooperativeGame::new(vec![0, 1, 1, 3, 1, 3, 3, 4]).unwrap();
    assert_eq!(game.player_count(), 3);
    let all: Vec<u64> = game.coalitions().iter().map(|c| c.0).collect();
    assert_eq!(all, vec![0, 1, 2, 3, 4, 5, 6, 7]);
    assert_eq!(game.v(Coalition(5)), 3);
    assert_eq!(game.try_v(Coalition(7)), Some(4));
    assert_eq!(game.try_v(Coalition(8)), None);
    assert_eq!(game.v_i(), 4);
    let singles: Vec<u64> = game.singular_coalitions().iter().map(|c| c.0).collect();
    assert_eq!(singles, vec![4, 2, 1]);
    let with_first: Vec<u64> = game.x_i(0).iter().map(|c| c.0).collect();
    assert_eq!(with_first, vec![4, 5, 6, 7]);
}

#[test]
fn coalition_set_operations() {
    let a = Coalition(0b1100);
    let b = Coalition(0b0110);
    assert_eq!(Coalition::empty().0, 0);
    assert_eq!(Coalition::default(), Coalition::empty());
    assert_eq!(a.n_members(), 2);
    assert_eq!(Coalition(u64::MAX).n_members(), 64);
    assert!(a.overlaps(b));
    assert!(!a.overlaps(Coalition(0b0011)));
    assert_eq!(a.union(b).0, 0b1110);
    assert_eq!(a.intersection(b).0, 0b0100);
    assert_eq!(a.without(b).0, 0b1000);
}

#[test]
fn shapley_value_of_a_symmetric_game() {
    let game = CooperativeGame::new(vec![0, 1, 1, 3, 1, 3, 3, 4]).unwrap();
    let x = game.x();
    assert_eq!(x.len(), 3);
    for share in &x {
        assert_eq!((share.num, share.den), (8, 6));
    }
}

#[test]
fn shapley_value_of_an_asymmetric_game() {
    // Two players: player 0 is bit 1, player 1 is bit 0.
    // v({1}) = 1, v({0}) = 2, v({0, 1}) = 6.
    let game = CooperativeGame::new(vec![0, 1, 2, 6]).unwrap();
    let x = game.x();
    // x_0 = (v({0}) - 0 + v({0,1}) - v({1})) / 2 = (2 + 5) / 2
    assert_eq!((x[0].num, x[0].den), (7, 2));
    // x_1 = (1 + 4) / 2
    assert_eq!((x[1].num, x[1].den), (5, 2));
}

#[test]
fn super_additivity_and_convexity() {
    let game = CooperativeGame::new(vec![0, 1, 1, 3, 1, 3, 3, 4]).unwrap();
    assert!(game.is_super_additive());
    assert!(!game.is_convex());
    let additive = CooperativeGame::new(vec![0, 1, 2, 3]).unwrap();
    assert!(additive.is_super_additive());
    assert!(additive.is_convex());
    let sub = CooperativeGame::new(vec![0, 3, 3, 4]).unwrap();
    assert!(!sub.is_super_additive());
    assert!(!sub.is_convex());
}
