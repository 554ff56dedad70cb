//! Zero-sum (antagonistic) games given by the payoff matrix of the row player.
use vstd::prelude::*;

use crate::brown_robinson::{
    lemma_weighted_sum_linear, payoffs_in_range, seq_sum, weighted_sum, MAX_PAYOFF,
};
use crate::extremes::{
    argmax_first, argmin_first, as_ints, lemma_seq_max, lemma_seq_min, seq_max, seq_min,
};
use crate::fraction::lemma_abs_mul_le;

verus! {

/// A zero-sum game: entry `[i][j]` is what player A (rows) wins and player B
/// (columns) loses when A plays `i` and B plays `j`.
pub struct Game(pub Vec<Vec<i64>>);

impl View for Game {
    type V = Seq<Seq<int>>;

    open spec fn view(&self) -> Seq<Seq<int>> {
        Seq::new(self.0@.len(), |i: int| as_ints(self.0@[i]@))
    }
}

/// A non-empty matrix whose rows are non-empty and of equal length.
pub open spec fn is_matrix(m: Seq<Seq<int>>) -> bool {
    &&& m.len() > 0
    &&& m[0].len() > 0
    &&& forall|i: int| 0 <= i < m.len() ==> #[trigger] m[i].len() == m[0].len()
}

/// A matrix with as many rows as columns.
pub open spec fn is_square(m: Seq<Seq<int>>) -> bool {
    is_matrix(m) && m[0].len() == m.len()
}

/// Column `j` of `m`.
pub open spec fn column(m: Seq<Seq<int>>, j: int) -> Seq<int> {
    Seq::new(m.len(), |i: int| m[i][j])
}

/// For each row, the least that player A wins with it.
pub open spec fn row_minima(m: Seq<Seq<int>>) -> Seq<int> {
    Seq::new(m.len(), |i: int| seq_min(m[i]))
}

/// For each column, the most that player B loses with it.
pub open spec fn column_maxima(m: Seq<Seq<int>>) -> Seq<int> {
    Seq::new(m[0].len(), |j: int| seq_max(column(m, j)))
}

/// The lower price of the game: the largest row minimum (max-min).
pub open spec fn lower_price(m: Seq<Seq<int>>) -> int {
    seq_max(row_minima(m))
}

/// The upper price of the game: the smallest column maximum (min-max).
pub open spec fn upper_price(m: Seq<Seq<int>>) -> int {
    seq_min(column_maxima(m))
}

/// The lower price of every matrix game is at most its upper price.
pub proof fn lemma_lower_price_le_upper_price(m: Seq<Seq<int>>)
    requires
        is_matrix(m),
    ensures
        lower_price(m) <= upper_price(m),
{
    let rm = row_minima(m);
    let cm = column_maxima(m);
    lemma_seq_max(rm);
    lemma_seq_min(cm);
    let r = choose|r: int| 0 <= r < rm.len() && rm[r] == seq_max(rm);
    let c = choose|c: int| 0 <= c < cm.len() && cm[c] == seq_min(cm);
    assert(m[r].len() == m[0].len());
    lemma_seq_min(m[r]);
    lemma_seq_max(column(m, c));
    assert(rm[r] <= m[r][c]);
    assert(column(m, c)[r] == m[r][c]);
    assert(m[r][c] <= cm[c]);
}

/// For each column, A's payoff against it when A plays row `j` with weight
/// `p[j]`.
pub open spec fn column_payoffs(m: Seq<Seq<int>>, p: Seq<int>) -> Seq<int> {
    Seq::new(m[0].len(), |i: int| weighted_sum(p, column(m, i)))
}

/// A's expected payoff, times the total weights, when A plays the rows with
/// weights `p` and B the columns with weights `q`.
pub open spec fn expected_payoff(m: Seq<Seq<int>>, p: Seq<int>, q: Seq<int>) -> int {
    weighted_sum(q, column_payoffs(m, p))
}

proof fn lemma_weighted_sum_of_constant(q: Seq<int>, x: Seq<int>, v: int)
    requires
        q.len() <= x.len(),
        forall|i: int| 0 <= i < q.len() ==> #[trigger] x[i] == v,
    ensures
        weighted_sum(q, x) == v * seq_sum(q),
    decreases q.len(),
{
    if q.len() > 0 {
        lemma_weighted_sum_of_constant(q.drop_last(), x, v);
        assert(v * seq_sum(q) == v * seq_sum(q.drop_last()) + q.last() * v) by (nonlinear_arith)
            requires
                seq_sum(q) == seq_sum(q.drop_last()) + q.last(),
        ;
    }
}

/// A strategy of A that earns the same `v` against every column earns `v`
/// against every mix of columns: with row weights `p` summing to `d` and
/// column weights `q` summing to `e`, the expected payoff `p M q / (d e)` is
/// `v / d`. So the weights and value that solve A's linear system (equal
/// payoff on every column, weights summing to the denominator) reproduce the
/// value when fed back through the expected payoff.
pub proof fn lemma_equalizing_strategy_reproduces_value(
    m: Seq<Seq<int>>,
    p: Seq<int>,
    q: Seq<int>,
    v: int,
)
    requires
        is_matrix(m),
        p.len() == m.len(),
        q.len() == m[0].len(),
        forall|i: int| 0 <= i < m[0].len() ==> #[trigger] weighted_sum(p, column(m, i)) == v,
    ensures
        expected_payoff(m, p, q) == v * seq_sum(q),
{
    let x = column_payoffs(m, p);
    assert forall|i: int| 0 <= i < q.len() implies #[trigger] x[i] == v by {
        assert(x[i] == weighted_sum(p, column(m, i)));
    }
    lemma_weighted_sum_of_constant(q, x, v);
}

/// The largest weight `expected_payoff` accepts.
pub const MAX_WEIGHT: i64 = 1_048_576;

proof fn lemma_weighted_sum_bound(c: Seq<int>, x: Seq<int>, bc: int, bx: int)
    requires
        c.len() <= x.len(),
        bc >= 0,
        bx >= 0,
        forall|j: int| 0 <= j < c.len() ==> -bc <= #[trigger] c[j] <= bc,
        forall|j: int| 0 <= j < c.len() ==> -bx <= #[trigger] x[j] <= bx,
    ensures
        -(c.len() * (bc * bx)) <= weighted_sum(c, x) <= c.len() * (bc * bx),
    decreases c.len(),
{
    if c.len() > 0 {
        let t = c.drop_last();
        lemma_weighted_sum_bound(t, x, bc, bx);
        lemma_abs_mul_le(c.last(), x[c.len() - 1], bc, bx);
        assert(c.len() * (bc * bx) == t.len() * (bc * bx) + bc * bx) by (nonlinear_arith)
            requires
                c.len() == t.len() + 1,
        ;
    }
}

/// The transpose of a square matrix.
pub open spec fn transpose(m: Seq<Seq<int>>) -> Seq<Seq<int>> {
    Seq::new(m.len(), |i: int| column(m, i))
}

/// The linear system whose solution `(x_0, ..., x_{n-1}, v)` is a mix `x` of
/// the rows of the square matrix `m` that earns `v` against every column:
/// `m` with a column of `-1` and a row of `1` appended, and `0` in the corner.
/// Its right-hand side is the last unit vector.
pub open spec fn augmented(m: Seq<Seq<int>>) -> Seq<Seq<int>> {
    let n = m.len();
    Seq::new(
        n + 1,
        |i: int|
            Seq::new(
                n + 1,
                |j: int|
                    if i < n && j < n {
                        m[i][j]
                    } else if i < n {
                        -1
                    } else if j < n {
                        1
                    } else {
                        0
                    },
            ),
    )
}

proof fn lemma_weighted_sum_ones(c: Seq<int>, x: Seq<int>)
    requires
        c.len() <= x.len(),
        forall|j: int| 0 <= j < c.len() ==> #[trigger] x[j] == 1,
    ensures
        weighted_sum(c, x) == seq_sum(c),
    decreases c.len(),
{
    if c.len() > 0 {
        lemma_weighted_sum_ones(c.drop_last(), x);
    }
}

/// The round trip through A's linear system: if the weights `x` (with
/// `x[n]` as the value) solve the system of the transposed matrix scaled by
/// `d` (each row of `augmented(transpose(m))` times `x` gives `0`, the last
/// gives `d`), then `x[0..n]` sums to `d`, and feeding it back through the
/// expected payoff against any weights `q` of B gives the value `x[n]` times
/// B's total weight: the mix `x[0..n] / d` earns exactly `x[n] / d`.
pub proof fn lemma_augmented_solution_reproduces_value(
    m: Seq<Seq<int>>,
    x: Seq<int>,
    d: int,
    q: Seq<int>,
)
    requires
        is_square(m),
        x.len() == m.len() + 1,
        forall|i: int| 0 <= i < m.len() ==> #[trigger] weighted_sum(x, augmented(transpose(m))[i]) == 0,
        weighted_sum(x, augmented(transpose(m))[m.len() as int]) == d,
        q.len() == m.len(),
    ensures
        seq_sum(x.drop_last()) == d,
        expected_payoff(m, x.drop_last(), q) == x[m.len() as int] * seq_sum(q),
{
    let n = m.len();
    let a = augmented(transpose(m));
    let p = x.drop_last();
    let v = x[n as int];
    assert forall|i: int| 0 <= i < n implies #[trigger] weighted_sum(p, column(m, i)) == v by {
        let row = a[i];
        assert(weighted_sum(x, row) == weighted_sum(p, row) + x.last() * row[n as int]);
        assert(row[n as int] == -1);
        assert forall|j: int| 0 <= j < p.len() implies #[trigger] row[j] == column(m, i)[j] + 0 * column(m, i)[j] by {
            assert(m[j].len() == m[0].len());
        }
        lemma_weighted_sum_linear(p, row, column(m, i), column(m, i), 0);
    }
    let last = a[n as int];
    assert(weighted_sum(x, last) == weighted_sum(p, last) + x.last() * last[n as int]);
    assert(last[n as int] == 0);
    assert(x.last() * 0 == 0);
    lemma_weighted_sum_ones(p, last);
    lemma_equalizing_strategy_reproduces_value(m, p, q, v);
}

/// Why rows cannot form a matrix.
#[derive(Clone, Copy, Debug, PartialEq, Eq, Structural)]
pub enum RowsError {
    /// Some row's length differs from the first row's.
    RaggedRows,
}

impl Game {
    /// The game whose payoff matrix has the given rows, which must all have
    /// the length of the first one.
    pub fn from_rows(rows: Vec<Vec<i64>>) -> (r: Result<Game, RowsError>)
        ensures
            r is Ok <==> (rows@.len() > 0 ==> forall|i: int|
                0 <= i < rows@.len() ==> #[trigger] rows@[i]@.len() == rows@[0]@.len()),
            r is Ok ==> r->Ok_0.0@ == rows@,
            r is Err ==> r == Err::<Game, RowsError>(RowsError::RaggedRows),
    {
        if rows.len() == 0 {
            return Ok(Game(rows));
        }
        let width = rows[0].len();
        let mut i: usize = 0;
        while i < rows.len()
            invariant
                rows@.len() > 0,
                width == rows@[0]@.len(),
                i <= rows@.len(),
                forall|t: int| 0 <= t < i ==> #[trigger] rows@[t]@.len() == width,
            decreases rows@.len() - i,
        {
            if rows[i].len() != width {
                return Err(RowsError::RaggedRows);
            }
            i += 1;
        }
        Ok(Game(rows))
    }

    /// Wraps a payoff matrix.
    pub fn new(matrix: Vec<Vec<i64>>) -> (r: Game)
        ensures
            r.0@ == matrix@,
    {
        Game(matrix)
    }

    /// The minimum of each row: what player A is sure to win with each strategy.
    pub fn min_win_a(&self) -> (r: Vec<i64>)
        requires
            is_matrix(self@),
        ensures
            as_ints(r@) == row_minima(self@),
    {
        let mut out: Vec<i64> = Vec::new();
        let mut i: usize = 0;
        while i < self.0.len()
            invariant
                is_matrix(self@),
                i <= self.0@.len(),
                out@.len() == i,
                forall|k: int| 0 <= k < i ==> out@[k] as int == seq_min(self@[k]),
            decreases self.0@.len() - i,
        {
            assert(self@[i as int].len() == self@[0].len());
            let (_, m) = argmin_first(&self.0[i]);
            out.push(m);
            i += 1;
        }
        assert(as_ints(out@) =~= row_minima(self@));
        out
    }

    /// The maximum of each column: what player B is sure not to lose more than.
    pub fn max_loss_b(&self) -> (r: Vec<i64>)
        requires
            is_matrix(self@),
        ensures
            as_ints(r@) == column_maxima(self@),
    {
        let ghost m = self@;
        let n_cols = self.0[0].len();
        let mut out: Vec<i64> = Vec::new();
        let mut j: usize = 0;
        while j < n_cols
            invariant
                is_matrix(m),
                m == self@,
                n_cols == m[0].len(),
                j <= n_cols,
                out@.len() == j,
                forall|k: int| 0 <= k < j ==> out@[k] as int == seq_max(column(m, k)),
            decreases n_cols - j,
        {
            let mut best = self.0[0][j];
            let mut best_i: usize = 0;
            let mut i: usize = 1;
            while i < self.0.len()
                invariant
                    is_matrix(m),
                    m == self@,
                    j < n_cols,
                    n_cols == m[0].len(),
                    0 < i <= m.len(),
                    best_i < i,
                    best as int == m[best_i as int][j as int],
                    forall|k: int| 0 <= k < i ==> m[k][j as int] <= best,
                decreases m.len() - i,
            {
                assert(m[i as int].len() == m[0].len());
                if self.0[i][j] > best {
                    best = self.0[i][j];
                    best_i = i;
                }
                i += 1;
            }
            proof {
                let col = column(m, j as int);
                lemma_seq_max(col);
                let w = choose|w: int| 0 <= w < col.len() && col[w] == seq_max(col);
                assert(col[best_i as int] == best);
                assert(col[w] <= best);
                assert(best <= seq_max(col));
            }
            out.push(best);
            j += 1;
        }
        assert(as_ints(out@) =~= column_maxima(m));
        out
    }

    /// The lower price of the game with the first row that attains it.
    pub fn lowest_price(&self) -> (r: (usize, i64))
        requires
            is_matrix(self@),
        ensures
            r.0 < self@.len(),
            r.1 == lower_price(self@),
            seq_min(self@[r.0 as int]) == r.1,
            forall|i: int| 0 <= i < r.0 ==> seq_min(self@[i]) < r.1,
    {
        let minima = self.min_win_a();
        assert(as_ints(minima@).len() == minima@.len());
        let r = argmax_first(&minima);
        assert(as_ints(minima@)[r.0 as int] == r.1);
        proof {
            assert forall|i: int| 0 <= i < r.0 implies seq_min(self@[i]) < r.1 by {
                assert(as_ints(minima@)[i] == minima@[i]);
            }
        }
        r
    }

    /// The upper price of the game with the first column that attains it.
    pub fn highest_price(&self) -> (r: (usize, i64))
        requires
            is_matrix(self@),
        ensures
            r.0 < self@[0].len(),
            r.1 == upper_price(self@),
            seq_max(column(self@, r.0 as int)) == r.1,
            forall|j: int| 0 <= j < r.0 ==> seq_max(column(self@, j)) > r.1,
    {
        let maxima = self.max_loss_b();
        assert(as_ints(maxima@).len() == maxima@.len());
        let r = argmin_first(&maxima);
        assert(as_ints(maxima@)[r.0 as int] == r.1);
        proof {
            assert forall|j: int| 0 <= j < r.0 implies seq_max(column(self@, j)) > r.1 by {
                assert(as_ints(maxima@)[j] == maxima@[j]);
            }
        }
        r
    }

    /// A's expected payoff, times the total weights, when A plays the rows
    /// with weights `p` and B the columns with weights `q`.
    pub fn expected_payoff(&self, p: &Vec<i64>, q: &Vec<i64>) -> (r: i128)
        requires
            is_matrix(self@),
            payoffs_in_range(self@),
            self@.len() <= MAX_WEIGHT,
            self@[0].len() <= MAX_WEIGHT,
            p@.len() == self@.len(),
            q@.len() == self@[0].len(),
            forall|j: int| 0 <= j < p@.len() ==> -MAX_WEIGHT <= #[trigger] p@[j] <= MAX_WEIGHT,
            forall|i: int| 0 <= i < q@.len() ==> -MAX_WEIGHT <= #[trigger] q@[i] <= MAX_WEIGHT,
        ensures
            r == expected_payoff(self@, as_ints(p@), as_ints(q@)),
    {
        let ghost m = self@;
        let ghost pi = as_ints(p@);
        let ghost qi = as_ints(q@);
        let ghost cp = column_payoffs(m, pi);
        let n_rows = self.0.len();
        let n_cols = self.0[0].len();
        let mut total: i128 = 0;
        let mut i: usize = 0;
        while i < n_cols
            invariant
                m == self@,
                is_matrix(m),
                payoffs_in_range(m),
                n_rows == m.len(),
                n_cols == m[0].len(),
                n_rows <= MAX_WEIGHT,
                n_cols <= MAX_WEIGHT,
                pi == as_ints(p@),
                qi == as_ints(q@),
                cp == column_payoffs(m, pi),
                pi.len() == n_rows,
                qi.len() == n_cols,
                forall|j: int| 0 <= j < n_rows ==> -MAX_WEIGHT <= #[trigger] pi[j] <= MAX_WEIGHT,
                forall|t: int| 0 <= t < n_cols ==> -MAX_WEIGHT <= #[trigger] qi[t] <= MAX_WEIGHT,
                i <= n_cols,
                total == weighted_sum(qi.subrange(0, i as int), cp),
                -(i * (MAX_WEIGHT * (MAX_WEIGHT * (MAX_WEIGHT * MAX_PAYOFF)))) <= total <= i * (MAX_WEIGHT * (MAX_WEIGHT * (MAX_WEIGHT * MAX_PAYOFF))),
            decreases n_cols - i,
        {
            let mut column_total: i128 = 0;
            let mut j: usize = 0;
            while j < n_rows
                invariant
                    m == self@,
                    is_matrix(m),
                    payoffs_in_range(m),
                    n_rows == m.len(),
                    n_cols == m[0].len(),
                    n_rows <= MAX_WEIGHT,
                    i < n_cols,
                    pi == as_ints(p@),
                    pi.len() == n_rows,
                    forall|t: int| 0 <= t < n_rows ==> -MAX_WEIGHT <= #[trigger] pi[t] <= MAX_WEIGHT,
                    j <= n_rows,
                    column_total == weighted_sum(pi.subrange(0, j as int), column(m, i as int)),
                    -(j * (MAX_WEIGHT * MAX_PAYOFF)) <= column_total <= j * (MAX_WEIGHT * MAX_PAYOFF),
                decreases n_rows - j,
            {
                assert(m[j as int].len() == m[0].len());
                assert(-MAX_PAYOFF <= m[j as int][i as int] <= MAX_PAYOFF);
                proof {
                    lemma_abs_mul_le(pi[j as int], m[j as int][i as int], MAX_WEIGHT as int, MAX_PAYOFF as int);
                    assert(pi.subrange(0, j + 1).drop_last() =~= pi.subrange(0, j as int));
                    assert(column(m, i as int)[j as int] == m[j as int][i as int]);
                    assert((j + 1) * (MAX_WEIGHT * MAX_PAYOFF) == j * (MAX_WEIGHT * MAX_PAYOFF) + MAX_WEIGHT * MAX_PAYOFF) by (nonlinear_arith);
                    assert(j * (MAX_WEIGHT * MAX_PAYOFF) <= MAX_WEIGHT * (MAX_WEIGHT * MAX_PAYOFF)) by (nonlinear_arith)
                        requires
                            j <= MAX_WEIGHT,
                    ;
                }
                column_total = column_total + p[j] as i128 * self.0[j][i] as i128;
                j += 1;
            }
            proof {
                assert(pi.subrange(0, n_rows as int) =~= pi);
                assert(cp[i as int] == column_total);
                lemma_abs_mul_le(qi[i as int], column_total as int, MAX_WEIGHT as int, MAX_WEIGHT * (MAX_WEIGHT * MAX_PAYOFF));
                assert(n_rows * (MAX_WEIGHT * MAX_PAYOFF) <= MAX_WEIGHT * (MAX_WEIGHT * MAX_PAYOFF)) by (nonlinear_arith)
                    requires
                        n_rows <= MAX_WEIGHT,
                ;
                assert(qi.subrange(0, i + 1).drop_last() =~= qi.subrange(0, i as int));
                assert((i + 1) * (MAX_WEIGHT * (MAX_WEIGHT * (MAX_WEIGHT * MAX_PAYOFF))) == i * (MAX_WEIGHT * (MAX_WEIGHT * (MAX_WEIGHT * MAX_PAYOFF))) + MAX_WEIGHT * (MAX_WEIGHT * (MAX_WEIGHT * MAX_PAYOFF))) by (nonlinear_arith);
                assert(i * (MAX_WEIGHT * (MAX_WEIGHT * (MAX_WEIGHT * MAX_PAYOFF))) <= MAX_WEIGHT * (MAX_WEIGHT * (MAX_WEIGHT * (MAX_WEIGHT * MAX_PAYOFF)))) by (nonlinear_arith)
                    requires
                        i <= MAX_WEIGHT,
                ;
            }
            total = total + q[i] as i128 * column_total;
            i += 1;
        }
        proof {
            assert(qi.subrange(0, n_cols as int) =~= qi);
        }
        total
    }

    /// The linear system of A's equalizing mix for this square game: the
    /// transposed payoff matrix with a column of `-1` and a row of `1`
    /// appended and `0` in the corner, and the last unit vector as the
    /// right-hand side.
    pub fn augmented_system(&self) -> (r: (Vec<Vec<i64>>, Vec<i64>))
        requires
            is_square(self@),
        ensures
            Game(r.0)@ == augmented(transpose(self@)),
            as_ints(r.1@) == Seq::new(self@.len() + 1, |i: int| if i == self@.len() { 1int } else { 0int }),
    {
        let ghost m = self@;
        let ghost a = augmented(transpose(m));
        let n = self.0.len();
        let mut rows: Vec<Vec<i64>> = Vec::new();
        let mut rhs: Vec<i64> = Vec::new();
        let mut i: usize = 0;
        while i < n
            invariant
                m == self@,
                is_square(m),
                n == m.len(),
                a == augmented(transpose(m)),
                i <= n,
                rows@.len() == i,
                rhs@.len() == i,
                forall|t: int| 0 <= t < i ==> #[trigger] rows@[t]@.len() == n + 1,
                forall|t: int, u: int| 0 <= t < i && 0 <= u <= n ==> #[trigger] rows@[t]@[u] as int == a[t][u],
                forall|t: int| 0 <= t < i ==> #[trigger] rhs@[t] == 0,
            decreases n - i,
        {
            let mut row: Vec<i64> = Vec::new();
            let mut j: usize = 0;
            while j < n
                invariant
                    m == self@,
                    is_square(m),
                    n == m.len(),
                    a == augmented(transpose(m)),
                    i < n,
                    j <= n,
                    row@.len() == j,
                    forall|u: int| 0 <= u < j ==> #[trigger] row@[u] as int == a[i as int][u],
                decreases n - j,
            {
                assert(m[j as int].len() == n);
                assert(transpose(m)[i as int][j as int] == m[j as int][i as int]);
                row.push(self.0[j][i]);
                j += 1;
            }
            row.push(-1);
            rows.push(row);
            rhs.push(0);
            i += 1;
        }
        let mut last: Vec<i64> = Vec::new();
        let mut j: usize = 0;
        while j < n
            invariant
                n == m.len(),
                a == augmented(transpose(m)),
                j <= n,
                last@.len() == j,
                forall|u: int| 0 <= u < j ==> #[trigger] last@[u] as int == a[n as int][u],
            decreases n - j,
        {
            last.push(1);
            j += 1;
        }
        last.push(0);
        rows.push(last);
        rhs.push(1);
        proof {
            let g = Game(rows)@;
            assert forall|t: int| 0 <= t < g.len() implies #[trigger] g[t] =~= a[t] by {
                assert(rows@[t]@.len() == n + 1);
            }
            assert(g =~= a);
            assert(as_ints(rhs@) =~= Seq::new((n + 1) as nat, |t: int| if t == n { 1int } else { 0int }));
        }
        (rows, rhs)
    }

    /// The game with the players' roles swapped: the transposed matrix.
    pub fn transposed(&self) -> (r: Game)
        requires
            is_square(self@),
        ensures
            r@ == transpose(self@),
    {
        let ghost m = self@;
        let n = self.0.len();
        let mut rows: Vec<Vec<i64>> = Vec::new();
        let mut i: usize = 0;
        while i < n
            invariant
                m == self@,
                is_square(m),
                n == m.len(),
                i <= n,
                rows@.len() == i,
                forall|t: int| 0 <= t < i ==> #[trigger] rows@[t]@.len() == n,
                forall|t: int, u: int| 0 <= t < i && 0 <= u < n ==> #[trigger] rows@[t]@[u] as int == m[u][t],
            decreases n - i,
        {
            let mut row: Vec<i64> = Vec::new();
            let mut j: usize = 0;
            while j < n
                invariant
                    m == self@,
                    is_square(m),
                    n == m.len(),
                    i < n,
                    j <= n,
                    row@.len() == j,
                    forall|u: int| 0 <= u < j ==> #[trigger] row@[u] as int == m[u][i as int],
                decreases n - j,
            {
                assert(m[j as int].len() == n);
                row.push(self.0[j][i]);
                j += 1;
            }
            rows.push(row);
            i += 1;
        }
        proof {
            let g = Game(rows)@;
            let tm = transpose(m);
            assert forall|t: int| 0 <= t < g.len() implies #[trigger] g[t] =~= tm[t] by {
                assert(rows@[t]@.len() == n);
            }
            assert(g =~= tm);
        }
        Game(rows)
    }
}

} // verus!
