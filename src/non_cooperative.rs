//! Bi-matrix (non-cooperative) games: Nash equilibria and Pareto-efficient
//! outcomes in pure strategies.
use rand_chacha::ChaCha20Rng;
use vstd::prelude::*;

use crate::random::random_in;

verus! {

/// The payoffs of player A and player B in one cell.
#[derive(Clone, Copy, Debug, PartialEq, Eq, Hash, PartialOrd, Ord, Structural)]
pub struct Pair(pub i64, pub i64);

/// A bi-matrix game: player A picks the row, player B the column, and cell
/// `[i][j]` holds both payoffs.
pub struct Game(pub Vec<Vec<Pair>>);

/// The game of the two players' payoff matrices.
pub type BiMatrixGame = Game;

impl View for Game {
    type V = Seq<Seq<Pair>>;

    open spec fn view(&self) -> Seq<Seq<Pair>> {
        Seq::new(self.0@.len(), |i: int| self.0@[i]@)
    }
}

/// A matrix whose rows all have the length of the first one.
pub open spec fn is_rectangular(m: Seq<Seq<Pair>>) -> bool {
    m.len() > 0 ==> forall|i: int| 0 <= i < m.len() ==> #[trigger] m[i].len() == m[0].len()
}

/// The number of columns.
pub open spec fn n_columns(m: Seq<Seq<Pair>>) -> int {
    if m.len() > 0 {
        m[0].len() as int
    } else {
        0
    }
}

/// Neither player gains by deviating alone from cell `(r, c)`.
pub open spec fn is_nash(m: Seq<Seq<Pair>>, r: int, c: int) -> bool {
    &&& forall|i: int| 0 <= i < m.len() ==> #[trigger] m[i][c].0 <= m[r][c].0
    &&& forall|j: int| 0 <= j < n_columns(m) ==> #[trigger] m[r][j].1 <= m[r][c].1
}

/// No cell is at least as good for both players and better for one.
pub open spec fn is_pareto(m: Seq<Seq<Pair>>, r: int, c: int) -> bool {
    forall|i: int, j: int|
        0 <= i < m.len() && 0 <= j < n_columns(m) ==> {
            let o = #[trigger] m[i][j];
            let w = m[r][c];
            (o.0 < w.0 || o.1 < w.1) || (o.0 <= w.0 && o.1 <= w.1)
        }
}

/// A cell singled out by some criterion, with its payoffs.
#[derive(Clone, Copy, Debug)]
pub struct OptimalBiMatrixStrategy {
    pub wins: Pair,
    pub coordinate: (usize, usize),
}

/// Which cells to single out.
#[derive(Clone, Copy, Debug, PartialEq, Eq, Structural)]
pub enum Criterion {
    /// Nash equilibria.
    Nash,
    /// Pareto-efficient outcomes.
    Pareto,
    /// Cells that are both.
    Both,
}

/// Cell `(i, j)` meets the criterion `c`.
pub open spec fn meets(m: Seq<Seq<Pair>>, c: Criterion, i: int, j: int) -> bool {
    match c {
        Criterion::Nash => is_nash(m, i, j),
        Criterion::Pareto => is_pareto(m, i, j),
        Criterion::Both => is_nash(m, i, j) && is_pareto(m, i, j),
    }
}

/// `r` lists, in row-major order, exactly the cells of `m` that meet the
/// criterion `nash`, each with its payoffs.
pub open spec fn lists_cells(m: Seq<Seq<Pair>>, r: Seq<OptimalBiMatrixStrategy>, nash: Criterion) -> bool {
    let w = n_columns(m);
    &&& forall|t: int|
        0 <= t < r.len() ==> {
            let (i, j) = (#[trigger] r[t]).coordinate;
            &&& i < m.len()
            &&& j < w
            &&& meets(m, nash, i as int, j as int)
            &&& r[t].wins == m[i as int][j as int]
        }
    &&& forall|t: int, u: int|
        #![trigger r[t], r[u]]
        0 <= t < u < r.len() ==> r[t].coordinate.0 * w + r[t].coordinate.1 < r[u].coordinate.0 * w
            + r[u].coordinate.1
    &&& forall|i: int, j: int|
        0 <= i < m.len() && 0 <= j < w && #[trigger] meets(m, nash, i, j) ==> exists|t: int|
            0 <= t < r.len() && #[trigger] r[t].coordinate == (i as usize, j as usize)
}

impl Game {
    /// Wraps a matrix of payoff pairs.
    pub fn new(game: Vec<Vec<Pair>>) -> (r: Game)
        ensures
            r.0@ == game@,
    {
        Game(game)
    }

    /// A `rows` by `columns` game whose payoffs are drawn uniformly from
    /// `low..high`.
    pub fn random(rng: &mut ChaCha20Rng, rows: usize, columns: usize, low: i64, high: i64) -> (r:
        Game)
        requires
            low < high,
        ensures
            r@.len() == rows,
            forall|i: int| 0 <= i < rows ==> #[trigger] r@[i].len() == columns,
            forall|i: int, j: int|
                0 <= i < rows && 0 <= j < columns ==> low <= #[trigger] r@[i][j].0 < high && low
                    <= r@[i][j].1 < high,
    {
        let mut m: Vec<Vec<Pair>> = Vec::new();
        let mut i: usize = 0;
        while i < rows
            invariant
                low < high,
                i <= rows,
                m@.len() == i,
                forall|t: int| 0 <= t < i ==> #[trigger] m@[t]@.len() == columns,
                forall|t: int, j: int|
                    0 <= t < i && 0 <= j < columns ==> low <= #[trigger] m@[t]@[j].0 < high && low
                        <= m@[t]@[j].1 < high,
            decreases rows - i,
        {
            let mut row: Vec<Pair> = Vec::new();
            let mut j: usize = 0;
            while j < columns
                invariant
                    low < high,
                    j <= columns,
                    row@.len() == j,
                    forall|u: int| 0 <= u < j ==> low <= #[trigger] row@[u].0 < high && low <= row@[u].1 < high,
                decreases columns - j,
            {
                let a = random_in(rng, low, high);
                let b = random_in(rng, low, high);
                row.push(Pair(a, b));
                j += 1;
            }
            m.push(row);
            i += 1;
        }
        Game(m)
    }

    /// Whether cell `(row, column)` is a Nash equilibrium.
    fn is_nash_equilibrium(&self, row: usize, column: usize) -> (r: bool)
        requires
            is_rectangular(self@),
            row < self@.len(),
            column < n_columns(self@),
        ensures
            r == is_nash(self@, row as int, column as int),
    {
        let ghost m = self@;
        assert(m[row as int].len() == m[0].len());
        let w = self.0[row][column];
        let mut i: usize = 0;
        while i < self.0.len()
            invariant
                m == self@,
                is_rectangular(m),
                row < m.len(),
                column < n_columns(m),
                w == m[row as int][column as int],
                i <= m.len(),
                forall|t: int| 0 <= t < i ==> #[trigger] m[t][column as int].0 <= w.0,
            decreases m.len() - i,
        {
            assert(m[i as int].len() == m[0].len());
            if self.0[i][column].0 > w.0 {
                return false;
            }
            i += 1;
        }
        let mut j: usize = 0;
        assert(m[row as int].len() == m[0].len());
        while j < self.0[row].len()
            invariant
                m == self@,
                is_rectangular(m),
                row < m.len(),
                column < n_columns(m),
                m[row as int].len() == n_columns(m),
                w == m[row as int][column as int],
                forall|t: int| 0 <= t < m.len() ==> #[trigger] m[t][column as int].0 <= w.0,
                j <= n_columns(m),
                forall|u: int| 0 <= u < j ==> #[trigger] m[row as int][u].1 <= w.1,
            decreases n_columns(m) - j,
        {
            if self.0[row][j].1 > w.1 {
                return false;
            }
            j += 1;
        }
        true
    }

    /// Whether cell `(row, column)` is Pareto-efficient.
    fn is_pareto_efficient(&self, row: usize, column: usize) -> (r: bool)
        requires
            is_rectangular(self@),
            row < self@.len(),
            column < n_columns(self@),
        ensures
            r == is_pareto(self@, row as int, column as int),
    {
        let ghost m = self@;
        assert(m[row as int].len() == m[0].len());
        let w = self.0[row][column];
        let mut i: usize = 0;
        while i < self.0.len()
            invariant
                m == self@,
                is_rectangular(m),
                row < m.len(),
                column < n_columns(m),
                w == m[row as int][column as int],
                i <= m.len(),
                forall|t: int, u: int|
                    0 <= t < i && 0 <= u < n_columns(m) ==> {
                        let o = #[trigger] m[t][u];
                        (o.0 < w.0 || o.1 < w.1) || (o.0 <= w.0 && o.1 <= w.1)
                    },
            decreases m.len() - i,
        {
            assert(m[i as int].len() == m[0].len());
            let mut j: usize = 0;
            while j < self.0[i].len()
                invariant
                    m == self@,
                    is_rectangular(m),
                    i < m.len(),
                    m[i as int].len() == n_columns(m),
                    w == m[row as int][column as int],
                    j <= n_columns(m),
                    forall|t: int, u: int|
                        0 <= t < i && 0 <= u < n_columns(m) ==> {
                            let o = #[trigger] m[t][u];
                            (o.0 < w.0 || o.1 < w.1) || (o.0 <= w.0 && o.1 <= w.1)
                        },
                    forall|u: int|
                        0 <= u < j ==> {
                            let o = #[trigger] m[i as int][u];
                            (o.0 < w.0 || o.1 < w.1) || (o.0 <= w.0 && o.1 <= w.1)
                        },
                decreases n_columns(m) - j,
            {
                let o = self.0[i][j];
                if !((o.0 < w.0 || o.1 < w.1) || (o.0 <= w.0 && o.1 <= w.1)) {
                    return false;
                }
                j += 1;
            }
            i += 1;
        }
        true
    }

    /// The cells satisfying the criterion, in row-major order.
    fn optimal_by(&self, nash: Criterion) -> (r: Vec<OptimalBiMatrixStrategy>)
        requires
            is_rectangular(self@),
        ensures
            lists_cells(self@, r@, nash),
    {
        let ghost m = self@;
        let w: usize = if self.0.len() > 0 {
            self.0[0].len()
        } else {
            0
        };
        let mut out: Vec<OptimalBiMatrixStrategy> = Vec::new();
        let mut i: usize = 0;
        while i < self.0.len()
            invariant
                m == self@,
                is_rectangular(m),
                w == n_columns(m),
                i <= m.len(),
                forall|t: int|
                    0 <= t < out@.len() ==> {
                        let (a, b) = (#[trigger] out@[t]).coordinate;
                        &&& a < i
                        &&& b < w
                        &&& meets(m, nash, a as int, b as int)
                        &&& out@[t].wins == m[a as int][b as int]
                    },
                forall|t: int, u: int|
                    #![trigger out@[t], out@[u]]
                    0 <= t < u < out@.len() ==> out@[t].coordinate.0 * w + out@[t].coordinate.1
                        < out@[u].coordinate.0 * w + out@[u].coordinate.1,
                forall|a: int, b: int|
                    0 <= a < i && 0 <= b < w && #[trigger] meets(m, nash, a, b) ==> exists|t: int|
                        0 <= t < out@.len() && #[trigger] out@[t].coordinate == (a as usize, b as usize),
            decreases m.len() - i,
        {
            assert(m[i as int].len() == m[0].len());
            let mut j: usize = 0;
            while j < w
                invariant
                    m == self@,
                    is_rectangular(m),
                    w == n_columns(m),
                    i < m.len(),
                    m[i as int].len() == w,
                    j <= w,
                    forall|t: int|
                        0 <= t < out@.len() ==> {
                            let (a, b) = (#[trigger] out@[t]).coordinate;
                            &&& (a < i || (a == i && b < j))
                            &&& b < w
                            &&& meets(m, nash, a as int, b as int)
                            &&& out@[t].wins == m[a as int][b as int]
                        },
                    forall|t: int, u: int|
                        #![trigger out@[t], out@[u]]
                        0 <= t < u < out@.len() ==> out@[t].coordinate.0 * w + out@[t].coordinate.1
                            < out@[u].coordinate.0 * w + out@[u].coordinate.1,
                    forall|a: int, b: int|
                        0 <= a < m.len() && 0 <= b < w && (a < i || (a == i && b < j)) && #[trigger] meets(m, nash, a, b)
                            ==> exists|t: int|
                            0 <= t < out@.len() && #[trigger] out@[t].coordinate == (a as usize, b as usize),
                decreases w - j,
            {
                let good = match nash {
                    Criterion::Nash => self.is_nash_equilibrium(i, j),
                    Criterion::Pareto => self.is_pareto_efficient(i, j),
                    Criterion::Both => self.is_nash_equilibrium(i, j) && self.is_pareto_efficient(i, j),
                };
                let ghost before = out@;
                if good {
                    proof {
                        assert forall|t: int| 0 <= t < before.len() implies before[t].coordinate.0 * w
                            + before[t].coordinate.1 < i * w + j by {
                            let (a, b) = before[t].coordinate;
                            assert(a * w + b < i * w + j) by (nonlinear_arith)
                                requires
                                    a < i || (a == i && b < j),
                                    b < w,
                            ;
                        }
                    }
                    out.push(OptimalBiMatrixStrategy { wins: self.0[i][j], coordinate: (i, j) });
                }
                proof {
                    assert forall|a: int, b: int|
                        0 <= a < m.len() && 0 <= b < w && (a < i || (a == i && b < j + 1)) && #[trigger] meets(m, nash, a, b)
                            implies exists|t: int|
                        0 <= t < out@.len() && #[trigger] out@[t].coordinate == (a as usize, b as usize) by {
                        if a == i && b == j {
                            assert(out@[out@.len() - 1].coordinate == (a as usize, b as usize));
                        } else {
                            let t = choose|t: int|
                                0 <= t < before.len() && #[trigger] before[t].coordinate == (
                                    a as usize,
                                    b as usize,
                                );
                            assert(out@[t] == before[t]);
                        }
                    }
                }
                j += 1;
            }
            i += 1;
        }
        out
    }

    /// The Nash equilibria in pure strategies, in row-major order.
    pub fn nash_equilibriums(&self) -> (r: Vec<OptimalBiMatrixStrategy>)
        requires
            is_rectangular(self@),
        ensures
            lists_cells(self@, r@, Criterion::Nash),
    {
        self.optimal_by(Criterion::Nash)
    }

    /// The Pareto-efficient outcomes, in row-major order.
    pub fn pareto_efficients(&self) -> (r: Vec<OptimalBiMatrixStrategy>)
        requires
            is_rectangular(self@),
        ensures
            lists_cells(self@, r@, Criterion::Pareto),
    {
        self.optimal_by(Criterion::Pareto)
    }

    /// The Nash equilibria that are also Pareto-efficient, in row-major order.
    pub fn efficient_equilibriums(&self) -> (r: Vec<OptimalBiMatrixStrategy>)
        requires
            is_rectangular(self@),
        ensures
            lists_cells(self@, r@, Criterion::Both),
    {
        self.optimal_by(Criterion::Both)
    }
}

} // verus!
