//! Positional games on a complete tree, solved by backward induction: from
//! the leaves up, each node takes the prize of the child that is best for
//! the player who moves there.
use rand_chacha::ChaCha20Rng;
use vstd::prelude::*;

use crate::random::random_in;

verus! {

/// The largest number of nodes on one layer of a generated tree.
pub const MAX_LAYER_NODES: usize = 16_777_216;

/// Where a node stands in the tree.
#[derive(Clone, Copy, Debug, PartialEq, Eq, Structural)]
pub struct Loc {
    /// A number unique in the tree, in generation order.
    pub uid: usize,
    /// The player who moves at this node.
    pub player: usize,
    /// Which of its parent's moves leads here, from 1.
    pub strat: usize,
    /// The index of the parent on the layer above.
    pub parent: usize,
}

/// A node with its prize (one payoff per player), once known.
#[derive(Debug)]
pub struct Node {
    pub loc: Loc,
    pub prize: Option<Vec<i32>>,
}

/// The nodes at one depth.
#[derive(Debug)]
pub struct Layer {
    pub nodes: Vec<Node>,
}

/// A node in spec code.
pub struct NodeModel {
    pub loc: Loc,
    pub prize: Option<Seq<i32>>,
}

impl Node {
    /// The node in spec code.
    pub open spec fn model(&self) -> NodeModel {
        NodeModel {
            loc: self.loc,
            prize: match self.prize {
                Some(p) => Some(p@),
                None => None,
            },
        }
    }
}

/// A layer in spec code.
pub open spec fn layer_model(l: Layer) -> Seq<NodeModel> {
    l.nodes@.map_values(|n: Node| n.model())
}

/// Among the first `k` nodes of `nodes`, the prize of the last child of
/// `parent` whose payoff for `player` is greatest.
pub open spec fn best_child(nodes: Seq<NodeModel>, parent: int, player: int, k: int) -> Option<
    Seq<i32>,
>
    decreases k,
{
    if k <= 0 {
        None
    } else {
        let earlier = best_child(nodes, parent, player, k - 1);
        let n = nodes[k - 1];
        if n.loc.parent == parent && n.prize is Some && (earlier is None
            || earlier->Some_0[player] <= n.prize->Some_0[player]) {
            n.prize
        } else {
            earlier
        }
    }
}

/// A positional game of several players on a tree, stored by layers.
#[derive(Debug)]
pub struct BackwardInductionGame {
    layers: Vec<Layer>,
    players: usize,
}

/// The tree's layers in spec code.
pub open spec fn layers_model(layers: Seq<Layer>) -> Seq<Seq<NodeModel>> {
    layers.map_values(|l: Layer| layer_model(l))
}

/// What holds of every tree: each node below the root has a parent on the
/// layer above, each player is one of `players`, and prizes have one payoff
/// per player.
pub open spec fn tree_inv(t: Seq<Seq<NodeModel>>, players: int) -> bool {
    &&& t.len() >= 1
    &&& players >= 1
    &&& forall|l: int, i: int|
        0 <= l < t.len() && 0 <= i < t[l].len() ==> #[trigger] t[l][i].loc.player < players
    &&& forall|l: int, i: int|
        1 <= l < t.len() && 0 <= i < t[l].len() ==> #[trigger] t[l][i].loc.parent < t[l - 1].len()
    &&& forall|l: int, i: int|
        0 <= l < t.len() && 0 <= i < t[l].len() && #[trigger] t[l][i].prize is Some
            ==> t[l][i].prize->Some_0.len() == players
}

/// The number of nodes on layer `l` of a generated tree: each node on
/// layer `l` has `players[l % n]` children.
pub open spec fn layer_size(players: Seq<u8>, l: nat) -> nat
    decreases l,
{
    if l == 0 {
        1
    } else {
        layer_size(players, (l - 1) as nat) * players[(((l - 1) as nat) % players.len()) as int] as nat
    }
}

/// The number of nodes on the layers above `l`.
pub open spec fn layer_offset(players: Seq<u8>, l: nat) -> nat
    decreases l,
{
    if l == 0 {
        0
    } else {
        layer_offset(players, (l - 1) as nat) + layer_size(players, (l - 1) as nat)
    }
}

/// Layer `l` (below the root) of the tree generated for `players`.
pub open spec fn is_generated_layer(t: Seq<Seq<NodeModel>>, players: Seq<u8>, l: int) -> bool {
    let paths = players[(l - 1) % players.len() as int] as int;
    &&& t[l].len() == layer_size(players, l as nat)
    &&& forall|i: int|
        0 <= i < t[l].len() ==> {
            let loc = (#[trigger] t[l][i]).loc;
            &&& loc.uid == layer_offset(players, l as nat) + i
            &&& loc.player == (((l - 1) % players.len() as int) + 1) % players.len() as int
            &&& loc.strat == i % paths + 1
            &&& loc.parent == i / paths
        }
}

/// Layer `l - 1` after its nodes take the best prizes of their children on
/// layer `l`.
pub open spec fn reduced_layer(t: Seq<Seq<NodeModel>>, l: int) -> Seq<NodeModel> {
    Seq::new(
        t[l - 1].len(),
        |p: int|
            NodeModel {
                loc: t[l - 1][p].loc,
                prize: match best_child(t[l], p, t[l - 1][p].loc.player as int, t[l].len() as int) {
                    Some(b) => Some(b),
                    None => t[l - 1][p].prize,
                },
            },
    )
}

/// The tree after backward induction over layers `1..=l`, deepest first.
pub open spec fn reduced(t: Seq<Seq<NodeModel>>, l: int) -> Seq<Seq<NodeModel>>
    decreases l,
{
    if l <= 0 || l >= t.len() {
        t
    } else {
        let u = t.update(l - 1, reduced_layer(t, l));
        reduced(u, l - 1)
    }
}

fn copy_prize(p: &Option<Vec<i32>>) -> (r: Option<Vec<i32>>)
    ensures
        match (r, *p) {
            (Some(a), Some(b)) => a@ == b@,
            (None, None) => true,
            _ => false,
        },
{
    match p {
        Some(v) => Some(v.clone()),
        None => None,
    }
}

impl BackwardInductionGame {
    /// The tree, layer by layer.
    pub closed spec fn tree(&self) -> Seq<Seq<NodeModel>> {
        layers_model(self.layers@)
    }

    /// The number of players.
    pub closed spec fn spec_players(&self) -> int {
        self.players as int
    }

    /// The layers of the tree, root first.
    pub fn layers(&self) -> (r: &Vec<Layer>)
        ensures
            layers_model(r@) == self.tree(),
    {
        &self.layers
    }

    /// The number of players.
    pub fn players(&self) -> (r: usize)
        ensures
            r == self.spec_players(),
    {
        self.players
    }

    /// Gives each node of layer `layer - 1` the prize of its child on layer
    /// `layer` that is best for the player moving at the node (the last one
    /// of several equally good).
    pub fn reduce_layer(&mut self, layer: usize)
        requires
            tree_inv(old(self).tree(), old(self).spec_players()),
            1 <= layer < old(self).tree().len(),
        ensures
            tree_inv(final(self).tree(), final(self).spec_players()),
            final(self).spec_players() == old(self).spec_players(),
            final(self).tree() == old(self).tree().update(
                layer - 1,
                reduced_layer(old(self).tree(), layer as int),
            ),
    {
        let ghost t = self.tree();
        let ghost players = self.players as int;
        let parents_len = self.layers[layer - 1].nodes.len();
        assert(t[layer - 1].len() == parents_len);
        assert(t[layer as int].len() == self.layers@[layer as int].nodes@.len());
        let mut new_nodes: Vec<Node> = Vec::new();
        let mut p: usize = 0;
        while p < parents_len
            invariant
                t == self.tree(),
                players == self.players,
                tree_inv(t, players),
                1 <= layer < t.len(),
                parents_len == t[layer - 1].len(),
                p <= parents_len,
                new_nodes@.len() == p,
                forall|q: int| 0 <= q < p ==> #[trigger] new_nodes@[q].model() == reduced_layer(t, layer as int)[q],
            decreases parents_len - p,
        {
            let parent = &self.layers[layer - 1].nodes[p];
            let player = parent.loc.player;
            let children = &self.layers[layer].nodes;
            let ghost cm = t[layer as int];
            let mut best: Option<Vec<i32>> = None;
            let mut k: usize = 0;
            assert(t[layer - 1][p as int] == parent.model());
            assert(t[layer - 1][p as int].loc.player < players);
            while k < children.len()
                invariant
                    t == self.tree(),
                    tree_inv(t, players),
                    1 <= layer < t.len(),
                    cm == t[layer as int],
                    cm.len() == children@.len(),
                    forall|i: int| 0 <= i < children@.len() ==> #[trigger] cm[i] == children@[i].model(),
                    player == t[layer - 1][p as int].loc.player,
                    player < players,
                    k <= children@.len(),
                    match (best, best_child(cm, p as int, player as int, k as int)) {
                        (Some(a), Some(b)) => a@ == b,
                        (None, None) => true,
                        _ => false,
                    },
                decreases children@.len() - k,
            {
                let child = &children[k];
                assert(cm[k as int] == child.model());
                if child.loc.parent == p {
                    match &child.prize {
                        Some(prize) => {
                            assert(t[layer as int][k as int].prize is Some);
                            assert(prize@.len() == players);
                            let better = match &best {
                                Some(b) => {
                                    proof {
                                        let bb = best_child(cm, p as int, player as int, k as int);
                                        assert(bb is Some);
                                        assert(bb->Some_0.len() == players) by {
                                            lemma_best_child_from_children(cm, p as int, player as int, k as int, players);
                                        }
                                    }
                                    b[player] <= prize[player]
                                },
                                None => true,
                            };
                            if better {
                                best = Some(prize.clone());
                            }
                        },
                        None => {},
                    }
                }
                k += 1;
            }
            let prize = match best {
                Some(b) => Some(b),
                None => copy_prize(&parent.prize),
            };
            new_nodes.push(Node { loc: parent.loc, prize });
            p += 1;
        }
        let ghost old_layers = self.layers@;
        self.layers.set(layer - 1, Layer { nodes: new_nodes });
        proof {
            let r = reduced_layer(t, layer as int);
            assert(layer_model(Layer { nodes: new_nodes }) =~= r);
            assert(self.tree() =~= t.update(layer - 1, r));
            lemma_reduced_layer_keeps_inv(t, layer as int, players);
        }
    }

    /// Solves the game by backward induction, from the deepest layer up.
    pub fn reduce(&mut self)
        requires
            tree_inv(old(self).tree(), old(self).spec_players()),
        ensures
            tree_inv(final(self).tree(), final(self).spec_players()),
            final(self).spec_players() == old(self).spec_players(),
            final(self).tree() == reduced(old(self).tree(), old(self).tree().len() - 1),
    {
        let ghost t0 = self.tree();
        let mut layer = self.layers.len() - 1;
        assert(self.layers@.len() == t0.len());
        while layer > 0
            invariant
                tree_inv(self.tree(), self.spec_players()),
                self.spec_players() == old(self).spec_players(),
                layer < self.tree().len(),
                self.tree().len() == t0.len(),
                reduced(self.tree(), layer as int) == reduced(t0, t0.len() - 1),
            decreases layer,
        {
            let ghost before = self.tree();
            self.reduce_layer(layer);
            proof {
                assert(reduced(before, layer as int) == reduced(
                    before.update(layer - 1, reduced_layer(before, layer as int)),
                    layer - 1,
                ));
            }
            layer -= 1;
        }
    }
}

impl BackwardInductionGame {
    /// A random tree of `depth` layers below the root for
    /// `players.len()` players, where a node on layer `l` belongs to player
    /// `l % n` and has `players[l % n]` children, and each leaf's prize
    /// holds one payoff in `min..=max` per player. `None` without players
    /// or if some layer would exceed `MAX_LAYER_NODES` nodes.
    pub fn random(rng: &mut ChaCha20Rng, depth: u8, players: &Vec<u8>, min: i32, max: i32) -> (r:
        Option<BackwardInductionGame>)
        requires
            depth >= 1,
            forall|i: int| 0 <= i < players@.len() ==> #[trigger] players@[i] >= 1,
            min <= max,
        ensures
            r is None <==> (players@.len() == 0 || layer_size(players@, depth as nat)
                > MAX_LAYER_NODES),
            r is Some ==> {
                let g = r->Some_0;
                let t = g.tree();
                &&& g.spec_players() == players@.len()
                &&& tree_inv(t, players@.len() as int)
                &&& t.len() == depth + 1
                &&& t[0].len() == 1
                &&& t[0][0].loc == (Loc { uid: 0, player: 0, strat: 0, parent: 0 })
                &&& t[0][0].prize is None
                &&& forall|l: int| 1 <= l <= depth ==> #[trigger] is_generated_layer(t, players@, l)
                &&& forall|l: int, i: int|
                    0 <= l < depth && 0 <= i < t[l].len() ==> #[trigger] t[l][i].prize is None
                &&& forall|i: int|
                    0 <= i < t[depth as int].len() ==> {
                        let prize = (#[trigger] t[depth as int][i]).prize;
                        &&& prize is Some
                        &&& forall|j: int|
                            0 <= j < players@.len() ==> min <= #[trigger] prize->Some_0[j] <= max
                    }
            },
    {
        let n = players.len();
        if n == 0 {
            return None;
        }
        let mut layers: Vec<Layer> = Vec::new();
        let root = Node { loc: Loc { uid: 0, player: 0, strat: 0, parent: 0 }, prize: None };
        let mut root_nodes: Vec<Node> = Vec::new();
        root_nodes.push(root);
        layers.push(Layer { nodes: root_nodes });
        let mut uid: usize = 0;
        let mut layer_len: usize = 1;
        let mut l: usize = 0;
        proof {
            assert(layers_model(layers@)[0] =~= seq![root.model()]);
        }
        while l < depth as usize
            invariant
                n == players@.len(),
                n >= 1,
                forall|i: int| 0 <= i < n ==> #[trigger] players@[i] >= 1,
                min <= max,
                1 <= depth,
                l <= depth,
                layers@.len() == l + 1,
                layer_len == layer_size(players@, l as nat),
                layer_len <= MAX_LAYER_NODES,
                uid + 1 == layer_offset(players@, l as nat) + layer_len,
                uid + 1 <= (l + 1) * MAX_LAYER_NODES,
                ({
                    let t = layers_model(layers@);
                    &&& tree_inv(t, n as int)
                    &&& t[0].len() == 1
                    &&& t[0][0].loc == (Loc { uid: 0, player: 0, strat: 0, parent: 0 })
                    &&& t[0][0].prize is None
                    &&& forall|a: int| 1 <= a <= l ==> #[trigger] is_generated_layer(t, players@, a)
                    &&& forall|a: int, i: int|
                        0 <= a < l && 0 <= i < t[a].len() ==> #[trigger] t[a][i].prize is None
                    &&& l < depth ==> forall|i: int| 0 <= i < t[l as int].len() ==> #[trigger] t[l as int][i].prize is None
                    &&& t[l as int].len() == layer_len
                    &&& l == depth ==> forall|i: int|
                        0 <= i < t[depth as int].len() ==> {
                            let prize = (#[trigger] t[depth as int][i]).prize;
                            &&& prize is Some
                            &&& forall|j: int|
                                0 <= j < n ==> min <= #[trigger] prize->Some_0[j] <= max
                        }
                }),
            decreases depth - l,
        {
            let src_player = l % n;
            assert(src_player < n);
            let paths = players[src_player] as usize;
            if layer_len > MAX_LAYER_NODES / paths {
                proof {
                    assert(layer_len * paths > MAX_LAYER_NODES) by (nonlinear_arith)
                        requires
                            layer_len > MAX_LAYER_NODES / paths,
                            paths >= 1,
                    ;
                    assert(layer_size(players@, (l + 1) as nat) == layer_len * paths);
                    lemma_layer_size_monotone(players@, (l + 1) as nat, depth as nat);
                }
                return None;
            }
            proof {
                assert(layer_len * paths <= MAX_LAYER_NODES) by (nonlinear_arith)
                    requires
                        layer_len <= MAX_LAYER_NODES / paths,
                        paths >= 1,
                ;
            }
            let size = layer_len * paths;
            let leaf = l + 1 == depth as usize;
            let mut nodes: Vec<Node> = Vec::new();
            let mut i: usize = 0;
            while i < size
                invariant
                    n == players@.len(),
                    n >= 1,
                    src_player == l % n,
                    src_player < n,
                    1 <= paths,
                    paths == players@[(l % n) as int],
                    size == layer_len * paths,
                    size <= MAX_LAYER_NODES,
                    uid + 1 <= (l + 1) * MAX_LAYER_NODES,
                    l < depth,
                    min <= max,
                    i <= size,
                    nodes@.len() == i,
                    forall|q: int| 0 <= q < i ==> {
                        let m = (#[trigger] nodes@[q]).model();
                        &&& m.loc.uid == uid + 1 + q
                        &&& m.loc.player == ((l % n) + 1) as int % n as int
                        &&& m.loc.player < n
                        &&& m.loc.strat == q % paths as int + 1
                        &&& m.loc.parent == q / paths as int
                        &&& m.loc.parent < layer_len
                        &&& leaf ==> m.prize is Some && m.prize->Some_0.len() == n && forall|j: int|
                            0 <= j < n ==> min <= #[trigger] m.prize->Some_0[j] <= max
                        &&& !leaf ==> m.prize is None
                    },
                decreases size - i,
            {
                let prize = if leaf {
                    let mut values: Vec<i32> = Vec::new();
                    let mut j: usize = 0;
                    while j < n
                        invariant
                            min <= max,
                            j <= n,
                            values@.len() == j,
                            forall|u: int| 0 <= u < j ==> min <= #[trigger] values@[u] <= max,
                        decreases n - j,
                    {
                        let v = random_in(rng, min as i64, max as i64 + 1);
                        values.push(v as i32);
                        j += 1;
                    }
                    Some(values)
                } else {
                    None
                };
                proof {
                    vstd::arithmetic::div_mod::lemma_fundamental_div_mod(i as int, paths as int);
                    vstd::arithmetic::div_mod::lemma_mod_pos_bound(i as int, paths as int);
                    assert(i / paths < layer_len) by (nonlinear_arith)
                        requires
                            i == paths * (i / paths) + i % paths,
                            0 <= i % paths,
                            i < layer_len * paths,
                            paths >= 1,
                    ;
                    vstd::arithmetic::div_mod::lemma_div_pos_is_pos(i as int, paths as int);
                    assert(uid + 1 + i <= 256 * MAX_LAYER_NODES - 1);
                }
                let ghost before_nodes = nodes@;
                nodes.push(
                    Node {
                        loc: Loc {
                            uid: uid + 1 + i,
                            player: (src_player + 1) % n,
                            strat: i % paths + 1,
                            parent: i / paths,
                        },
                        prize,
                    },
                );
                proof {
                    let m = nodes@[i as int].model();
                    assert(m.loc.uid == uid + 1 + i);
                    assert(m.loc.player == (src_player + 1) as int % n as int);
                    assert(src_player == l % n);
                    assert(m.loc.player == ((l % n) + 1) as int % n as int);
                    assert(m.loc.strat == i as int % paths as int + 1);
                    assert(m.loc.player < n);
                    assert(m.loc.parent == i as int / paths as int);
                    assert(leaf ==> m.prize is Some && m.prize->Some_0.len() == n);
                    assert(!leaf ==> m.prize is None);
                    assert forall|q: int| 0 <= q < i implies #[trigger] nodes@[q] == before_nodes[q] by {}
                }
                i += 1;
            }
            let ghost before = layers@;
            layers.push(Layer { nodes });
            proof {
                let t0 = layers_model(before);
                let t = layers_model(layers@);
                assert forall|a: int| 0 <= a <= l implies #[trigger] t[a] == t0[a] by {}
                assert(t[l + 1] == layer_model(Layer { nodes }));
                assert(layer_size(players@, (l + 1) as nat) == size);
                assert(layer_offset(players@, (l + 1) as nat) == layer_offset(players@, l as nat)
                    + layer_size(players@, l as nat));
                assert(layer_offset(players@, (l + 1) as nat) == uid + 1);
                assert forall|a: int, q: int|
                    0 <= a < t.len() && 0 <= q < t[a].len() implies #[trigger] t[a][q].loc.player < n by {
                    if a <= l {
                        assert(t[a] == t0[a]);
                    } else {
                        assert(t[a][q] == nodes@[q].model());
                    }
                }
                assert forall|a: int, q: int|
                    1 <= a < t.len() && 0 <= q < t[a].len() implies #[trigger] t[a][q].loc.parent < t[a - 1].len() by {
                    if a <= l {
                        assert(t[a] == t0[a]);
                        assert(t[a - 1] == t0[a - 1]);
                        assert(t0[a][q].loc.parent < t0[a - 1].len());
                    } else {
                        assert(t[a][q] == nodes@[q].model());
                        assert(t[l as int] == t0[l as int]);
                        assert(nodes@[q].model().loc.parent < layer_len);
                    }
                }
                assert forall|a: int, q: int|
                    0 <= a < t.len() && 0 <= q < t[a].len() && #[trigger] t[a][q].prize is Some implies t[a][q].prize->Some_0.len() == n by {
                    if a <= l {
                        assert(t[a] == t0[a]);
                    } else {
                        assert(t[a][q] == nodes@[q].model());
                    }
                }
                assert forall|a: int| 1 <= a <= l + 1 implies #[trigger] is_generated_layer(t, players@, a) by {
                    if a <= l {
                        assert(t[a] == t0[a]);
                        assert(is_generated_layer(t0, players@, a));
                    } else {
                        assert forall|q: int| 0 <= q < t[a].len() implies {
                            let loc = (#[trigger] t[a][q]).loc;
                            &&& loc.uid == layer_offset(players@, a as nat) + q
                            &&& loc.player == (((a - 1) % n as int) + 1) % n as int
                            &&& loc.strat == q % (players@[(a - 1) % n as int] as int) + 1
                            &&& loc.parent == q / (players@[(a - 1) % n as int] as int)
                        } by {
                            assert(t[a][q] == nodes@[q].model());
                        }
                    }
                }
                assert forall|a: int, q: int|
                    0 <= a < l + 1 && 0 <= q < t[a].len() implies #[trigger] t[a][q].prize is None by {
                    assert(t[a] == t0[a]);
                }
                if !leaf {
                    assert forall|q: int| 0 <= q < t[l + 1].len() implies #[trigger] t[l + 1][q].prize is None by {
                        assert(t[l + 1][q] == nodes@[q].model());
                    }
                } else {
                    assert forall|q: int| 0 <= q < t[depth as int].len() implies {
                        let prize = (#[trigger] t[depth as int][q]).prize;
                        &&& prize is Some
                        &&& forall|j: int| 0 <= j < n ==> min <= #[trigger] prize->Some_0[j] <= max
                    } by {
                        assert(t[depth as int][q] == nodes@[q].model());
                    }
                }
            }
            uid = uid + size;
            layer_len = size;
            l += 1;
        }
        proof {
            assert(layer_size(players@, depth as nat) == layer_len);
        }
        Some(BackwardInductionGame { layers, players: n })
    }
}

proof fn lemma_layer_size_monotone(players: Seq<u8>, a: nat, b: nat)
    requires
        a <= b,
        players.len() > 0,
        forall|i: int| 0 <= i < players.len() ==> #[trigger] players[i] >= 1,
    ensures
        layer_size(players, a) <= layer_size(players, b),
    decreases b,
{
    if a < b {
        lemma_layer_size_monotone(players, a, (b - 1) as nat);
        let s = layer_size(players, (b - 1) as nat);
        let f = players[(((b - 1) as nat) % players.len()) as int] as nat;
        assert(f >= 1);
        assert(s <= s * f) by (nonlinear_arith)
            requires
                f >= 1,
        ;
    }
}

proof fn lemma_best_child_from_children(nodes: Seq<NodeModel>, parent: int, player: int, k: int, players: int)
    requires
        0 <= k <= nodes.len(),
        forall|i: int| 0 <= i < nodes.len() && #[trigger] nodes[i].prize is Some ==> nodes[i].prize->Some_0.len() == players,
    ensures
        best_child(nodes, parent, player, k) is Some ==> best_child(nodes, parent, player, k)->Some_0.len() == players,
    decreases k,
{
    if k > 0 {
        lemma_best_child_from_children(nodes, parent, player, k - 1, players);
    }
}

proof fn lemma_reduced_layer_keeps_inv(t: Seq<Seq<NodeModel>>, l: int, players: int)
    requires
        tree_inv(t, players),
        1 <= l < t.len(),
    ensures
        tree_inv(t.update(l - 1, reduced_layer(t, l)), players),
{
    let u = t.update(l - 1, reduced_layer(t, l));
    assert forall|a: int, i: int|
        0 <= a < u.len() && 0 <= i < u[a].len() && #[trigger] u[a][i].prize is Some implies u[a][i].prize->Some_0.len() == players by {
        if a == l - 1 {
            lemma_best_child_from_children(t[l], i, t[l - 1][i].loc.player as int, t[l].len() as int, players);
        }
    }
    assert forall|a: int, i: int|
        1 <= a < u.len() && 0 <= i < u[a].len() implies #[trigger] u[a][i].loc.parent < u[a - 1].len() by {
        assert(t[a][i].loc.parent < t[a - 1].len());
    }
    assert forall|a: int, i: int|
        0 <= a < u.len() && 0 <= i < u[a].len() implies #[trigger] u[a][i].loc.player < players by {
        assert(t[a][i].loc.player < players);
    }
}

} // verus!
