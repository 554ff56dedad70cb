use game_theory::backward_induction::BackwardInductionGame;
use rand::SeedableRng;
use rand_chacha::ChaCha20Rng;

#[test]
fn no_players_no_tree() {
    let mut rng = ChaCha20Rng::seed_from_u64(1);
    assert!(BackwardInductionGame::random(&mut rng, 3, &vec![], 0, 10).is_none());
}

#[test]
fn oversized_tree_is_refused() {
    let mut rng = ChaCha20Rng::seed_from_u64(1);
    // 255^4 leaves exceed the layer limit.
    assert!(BackwardInductionGame::random(&mut rng, 4, &vec![255], 0, 10).is_none());
}

#[test]
fn generated_tree_shape() {
    let mut rng = ChaCha20Rng::seed_from_u64(2);
    let game = BackwardInductionGame::random(&mut rng, 3, &vec![2, 3], -20, 15).unwrap();
    let layers = game.layers();
    assert_eq!(game.players(), 2);
    let sizes: Vec<usize> = layers.iter().map(|l| l.nodes.len()).collect();
    assert_eq!(sizes, vec![1, 2, 6, 12]);
    let mut uid = 0;
    for (depth, layer) in layers.iter().enumerate() {
        for (i, node) in layer.nodes.iter().enumerate() {
            assert_eq!(node.loc.uid, uid);
            uid += 1;
            if depth > 0 {
                let paths = [2, 3][(depth - 1) % 2];
                assert_eq!(node.loc.parent, i / paths);
                assert_eq!(node.loc.strat, i % paths + 1);
                assert_eq!(node.loc.player, depth % 2);
            }
            if depth == 3 {
                let prize = node.prize.as_ref().unwrap();
                assert_eq!(prize.len(), 2);
                assert!(prize.iter().all(|v| (-20..=15).contains(v)));
            } else {
                assert!(node.prize.is_none());
            }
        }
    }
}

#[test]
fn reduction_picks_each_movers_best_child() {
    let mut rng = ChaCha20Rng::seed_from_u64(4);
    let mut game = BackwardInductionGame::random(&mut rng, 2, &vec![2, 2], 0, 9).unwrap();
    let leaves: Vec<Vec<i32>> = game.layers()[2]
        .nodes
        .iter()
        .map(|n| n.prize.clone().unwrap())
        .collect();
    game.reduce();
    let layers = game.layers();
    // Layer 1 nodes belong to player 1: each picks its better child for
    // player 1, the later one on a tie.
    let mut middle = Vec::new();
    for p in 0..2 {
        let a = &leaves[2 * p];
        let b = &leaves[2 * p + 1];
        let best = if a[1] > b[1] { a.clone() } else { b.clone() };
        assert_eq!(layers[1].nodes[p].prize.as_ref().unwrap(), &best);
        middle.push(best);
    }
    // The root belongs to player 0.
    let root = if middle[0][0] > middle[1][0] { &middle[0] } else { &middle[1] };
    assert_eq!(layers[0].nodes[0].prize.as_ref().unwrap(), root);
}

#[test]
fn reducing_one_layer_at_a_time() {
    let mut rng = ChaCha20Rng::seed_from_u64(6);
    let mut stepwise = BackwardInductionGame::random(&mut rng, 3, &vec![3, 2, 2], 1, 5).unwrap();
    let mut rng = ChaCha20Rng::seed_from_u64(6);
    let mut at_once = BackwardInductionGame::random(&mut rng, 3, &vec![3, 2, 2], 1, 5).unwrap();
    stepwise.reduce_layer(3);
    assert!(stepwise.layers()[2].nodes.iter().all(|n| n.prize.is_some()));
    assert!(stepwise.layers()[1].nodes.iter().all(|n| n.prize.is_none()));
    stepwise.reduce_layer(2);
    stepwise.reduce_layer(1);
    at_once.reduce();
    assert_eq!(
        stepwise.layers()[0].nodes[0].prize,
        at_once.layers()[0].nodes[0].prize
    );
}
