//! The Brown-Robinson method (fictitious play) for zero-sum matrix games.
//!
//! Each step, both players best-respond to the opponent's accumulated play.
//! The averaged best-response payoffs give an upper and a lower estimate of
//! the game's value; the running best of each converges to the value.
use rand_chacha::ChaCha20Rng;
use vstd::prelude::*;

use crate::extremes::{
    count_ints, lemma_seq_max, lemma_seq_min, max_wide, min_wide, seq_max, seq_min, wide_ints,
};
use crate::fraction::{
    lemma_ratio_sub_monotone, ratio_le, ratio_midpoint, ratio_sub, Fraction, Ratio,
};
use crate::random::{choose_one, random_below};
use crate::zero_sum::{column, column_payoffs, is_square, lower_price, upper_price, Game};

verus! {

/// The largest payoff magnitude the solver accepts.
pub const MAX_PAYOFF: i64 = 1_099_511_627_776;

/// The number of steps after which the solver stops producing records.
///
/// The method itself never ends; this is the machine limit of its exact
/// arithmetic: with payoffs up to `MAX_PAYOFF`, accumulated scores times step
/// counts must stay within 128 bits when two estimates are compared.
pub const MAX_ITERATIONS: usize = 1_000_000_000;

/// Why a payoff matrix cannot be handed to the solver.
#[derive(Clone, Copy, Debug, PartialEq, Eq, Structural)]
pub enum SolverError {
    /// The matrix has no rows.
    EmptyMatrix,
    /// Some row's length differs from the number of rows.
    NotSquare,
    /// Some payoff's magnitude exceeds `MAX_PAYOFF`.
    PayoffOutOfRange,
}

/// `sum(c[j] * x[j])` over the indices of `c`.
pub open spec fn weighted_sum(c: Seq<int>, x: Seq<int>) -> int
    decreases c.len(),
{
    if c.len() == 0 {
        0
    } else {
        weighted_sum(c.drop_last(), x) + c.last() * x[c.len() - 1]
    }
}

/// The sum of a sequence.
pub open spec fn seq_sum(c: Seq<int>) -> int
    decreases c.len(),
{
    if c.len() == 0 {
        0
    } else {
        seq_sum(c.drop_last()) + c.last()
    }
}

/// Every payoff of `m` has magnitude at most `MAX_PAYOFF`.
pub open spec fn payoffs_in_range(m: Seq<Seq<int>>) -> bool {
    forall|i: int, j: int|
        0 <= i < m.len() && 0 <= j < m[i].len() ==> -MAX_PAYOFF <= #[trigger] m[i][j]
            <= MAX_PAYOFF
}

/// Some row of a non-empty matrix has a length other than the number of rows.
pub open spec fn has_ragged_row(m: Seq<Seq<int>>) -> bool {
    exists|i: int| 0 <= i < m.len() && #[trigger] m[i].len() != m.len()
}

/// The state of a solver, in mathematical terms.
pub struct SolverState {
    /// The payoff matrix.
    pub matrix: Seq<Seq<int>>,
    /// The number of steps taken.
    pub k: int,
    /// The strategies chosen at the last step.
    pub a_strategy: int,
    pub b_strategy: int,
    /// For each row, A's accumulated payoff against B's play so far.
    pub a_scores: Seq<int>,
    /// For each column, B's accumulated loss against A's play so far.
    pub b_scores: Seq<int>,
    /// How often each strategy has been chosen.
    pub a_counts: Seq<int>,
    pub b_counts: Seq<int>,
    /// The least averaged upper estimate so far.
    pub min_high_price: Ratio,
    /// The greatest averaged lower estimate so far.
    pub max_low_price: Ratio,
    /// A's use-counts at the step that gave `max_low_price`.
    pub low_weights: Seq<int>,
    /// B's use-counts at the step that gave `min_high_price`.
    pub high_weights: Seq<int>,
}

/// For each row, A's payoff against B's weights `q` on the columns.
pub open spec fn row_payoffs(m: Seq<Seq<int>>, q: Seq<int>) -> Seq<int> {
    Seq::new(m.len(), |i: int| weighted_sum(q, m[i]))
}

/// Non-negative weights on `n` strategies with a positive total: a mixed
/// strategy `p / sum(p)`.
pub open spec fn is_mix(p: Seq<int>, n: int) -> bool {
    &&& p.len() == n
    &&& forall|i: int| 0 <= i < n ==> #[trigger] p[i] >= 0
    &&& seq_sum(p) >= 1
}

/// What A's mix `p` secures against every column.
pub open spec fn guaranteed(m: Seq<Seq<int>>, p: Seq<int>) -> Ratio {
    (seq_min(column_payoffs(m, p)), seq_sum(p))
}

/// The most that B's mix `q` concedes to any row.
pub open spec fn conceded(m: Seq<Seq<int>>, q: Seq<int>) -> Ratio {
    (seq_max(row_payoffs(m, q)), seq_sum(q))
}

/// The gap between the running bounds.
pub open spec fn epsilon_of(s: SolverState) -> Ratio {
    ratio_sub(s.min_high_price, s.max_low_price)
}

/// A running bound that arose at some step `1..=k`.
pub open spec fn is_running_bound(r: Ratio, k: int) -> bool {
    1 <= r.1 <= k && -r.1 * MAX_PAYOFF <= r.0 <= r.1 * MAX_PAYOFF
}

/// What holds of every solver state.
pub open spec fn state_inv(s: SolverState) -> bool {
    let m = s.matrix;
    let n = m.len();
    &&& is_square(m)
    &&& payoffs_in_range(m)
    &&& 0 <= s.k <= MAX_ITERATIONS
    &&& 0 <= s.a_strategy < n
    &&& 0 <= s.b_strategy < n
    &&& s.a_scores.len() == n
    &&& s.b_scores.len() == n
    &&& s.a_counts.len() == n
    &&& s.b_counts.len() == n
    &&& forall|i: int| 0 <= i < n ==> 0 <= #[trigger] s.a_counts[i] <= s.k
    &&& forall|j: int| 0 <= j < n ==> 0 <= #[trigger] s.b_counts[j] <= s.k
    &&& seq_sum(s.a_counts) == s.k
    &&& seq_sum(s.b_counts) == s.k
    &&& forall|i: int| 0 <= i < n ==> #[trigger] s.a_scores[i] == weighted_sum(s.b_counts, m[i])
    &&& forall|j: int|
        0 <= j < n ==> #[trigger] s.b_scores[j] == weighted_sum(s.a_counts, column(m, j))
    &&& forall|i: int|
        0 <= i < n ==> -s.k * MAX_PAYOFF <= #[trigger] s.a_scores[i] <= s.k * MAX_PAYOFF
    &&& forall|j: int|
        0 <= j < n ==> -s.k * MAX_PAYOFF <= #[trigger] s.b_scores[j] <= s.k * MAX_PAYOFF
    &&& s.k == 0 ==> s.min_high_price == (0int, 1int) && s.max_low_price == (0int, 1int)
    &&& s.k >= 1 ==> {
        &&& is_running_bound(s.min_high_price, s.k)
        &&& is_running_bound(s.max_low_price, s.k)
        &&& ratio_le((lower_price(m), 1), s.min_high_price)
        &&& ratio_le(s.max_low_price, (upper_price(m), 1))
        &&& is_mix(s.low_weights, n as int)
        &&& s.max_low_price == guaranteed(m, s.low_weights)
        &&& is_mix(s.high_weights, n as int)
        &&& s.min_high_price == conceded(m, s.high_weights)
        &&& ratio_le(s.max_low_price, s.min_high_price)
    }
}

/// The state after one step in which A plays row `a` and B plays column `b`.
pub open spec fn step_state(s: SolverState, a: int, b: int) -> SolverState {
    let m = s.matrix;
    let k = s.k + 1;
    let a_scores = Seq::new(m.len(), |i: int| s.a_scores[i] + m[i][b]);
    let b_scores = Seq::new(m.len(), |j: int| s.b_scores[j] + m[a][j]);
    let high: Ratio = (seq_max(a_scores), k);
    let low: Ratio = (seq_min(b_scores), k);
    let a_counts = s.a_counts.update(a, s.a_counts[a] + 1);
    let b_counts = s.b_counts.update(b, s.b_counts[b] + 1);
    let new_high = s.k == 0 || ratio_le(high, s.min_high_price);
    let new_low = s.k == 0 || ratio_le(s.max_low_price, low);
    SolverState {
        matrix: m,
        k,
        a_strategy: a,
        b_strategy: b,
        a_scores,
        b_scores,
        a_counts,
        b_counts,
        min_high_price: if new_high {
            high
        } else {
            s.min_high_price
        },
        max_low_price: if new_low {
            low
        } else {
            s.max_low_price
        },
        low_weights: if new_low {
            a_counts
        } else {
            s.low_weights
        },
        high_weights: if new_high {
            b_counts
        } else {
            s.high_weights
        },
    }
}

/// The choice fictitious play allows at the next step: any pair of strategies
/// at the first step, then a row with the greatest accumulated payoff for A
/// and a column with the least accumulated loss for B.
pub open spec fn is_best_response(s: SolverState, a: int, b: int) -> bool {
    &&& 0 <= a < s.matrix.len()
    &&& 0 <= b < s.matrix.len()
    &&& s.k > 0 ==> s.a_scores[a] == seq_max(s.a_scores) && s.b_scores[b] == seq_min(s.b_scores)
}

/// One record of the method's run.
pub struct BrownRobinsonRow {
    /// The number of the step.
    pub iteration: usize,
    /// The strategy of player A at this step.
    pub a_strategy: usize,
    /// The strategy of player B at this step.
    pub b_strategy: usize,
    /// Accumulated payoff of each of A's strategies.
    pub a_score: Vec<i128>,
    /// Accumulated loss of each of B's strategies.
    pub b_score: Vec<i128>,
    /// The upper estimate of this step: the greatest accumulated payoff over `k`.
    pub high_price: Fraction,
    /// The lower estimate of this step: the least accumulated loss over `k`.
    pub low_price: Fraction,
    /// The least upper estimate so far minus the greatest lower one.
    pub epsilon: Fraction,
}

/// The record `r` reports the state `s`.
pub open spec fn reports(r: BrownRobinsonRow, s: SolverState) -> bool {
    &&& r.iteration == s.k
    &&& r.a_strategy == s.a_strategy
    &&& r.b_strategy == s.b_strategy
    &&& wide_ints(r.a_score@) == s.a_scores
    &&& wide_ints(r.b_score@) == s.b_scores
    &&& r.high_price.ratio() == (seq_max(s.a_scores), s.k)
    &&& r.low_price.ratio() == (seq_min(s.b_scores), s.k)
    &&& r.epsilon.ratio() == epsilon_of(s)
}

/// The Brown-Robinson method running on one game.
pub struct BrownRobinson {
    game: Game,
    a_strategy: usize,
    b_strategy: usize,
    a_scores: Vec<i128>,
    b_scores: Vec<i128>,
    min_high_price: Fraction,
    max_low_price: Fraction,
    a_strategy_times_used: Vec<usize>,
    b_strategy_times_used: Vec<usize>,
    k: usize,
    low_weights: Ghost<Seq<int>>,
    high_weights: Ghost<Seq<int>>,
}

impl View for BrownRobinson {
    type V = SolverState;

    closed spec fn view(&self) -> SolverState {
        SolverState {
            matrix: self.game@,
            k: self.k as int,
            a_strategy: self.a_strategy as int,
            b_strategy: self.b_strategy as int,
            a_scores: wide_ints(self.a_scores@),
            b_scores: wide_ints(self.b_scores@),
            a_counts: count_ints(self.a_strategy_times_used@),
            b_counts: count_ints(self.b_strategy_times_used@),
            min_high_price: self.min_high_price.ratio(),
            max_low_price: self.max_low_price.ratio(),
            low_weights: self.low_weights@,
            high_weights: self.high_weights@,
        }
    }
}

proof fn lemma_weighted_sum_bump(c: Seq<int>, x: Seq<int>, b: int)
    requires
        0 <= b < c.len(),
    ensures
        weighted_sum(c.update(b, c[b] + 1), x) == weighted_sum(c, x) + x[b],
    decreases c.len(),
{
    let d = c.update(b, c[b] + 1);
    if b == c.len() - 1 {
        assert(d.drop_last() =~= c.drop_last());
        assert((c[b] + 1) * x[b] == c[b] * x[b] + x[b]) by (nonlinear_arith);
    } else {
        assert(d.drop_last() =~= c.drop_last().update(b, c[b] + 1));
        lemma_weighted_sum_bump(c.drop_last(), x, b);
    }
}

proof fn lemma_seq_sum_bump(c: Seq<int>, b: int)
    requires
        0 <= b < c.len(),
    ensures
        seq_sum(c.update(b, c[b] + 1)) == seq_sum(c) + 1,
    decreases c.len(),
{
    let d = c.update(b, c[b] + 1);
    if b == c.len() - 1 {
        assert(d.drop_last() =~= c.drop_last());
    } else {
        assert(d.drop_last() =~= c.drop_last().update(b, c[b] + 1));
        lemma_seq_sum_bump(c.drop_last(), b);
    }
}

proof fn lemma_zero_sums(n: nat, x: Seq<int>)
    ensures
        seq_sum(Seq::new(n, |i: int| 0int)) == 0,
        weighted_sum(Seq::new(n, |i: int| 0int), x) == 0,
    decreases n,
{
    if n > 0 {
        assert(Seq::new(n, |i: int| 0int).drop_last() =~= Seq::new((n - 1) as nat, |i: int| 0int));
        lemma_zero_sums((n - 1) as nat, x);
        assert(Seq::new(n, |i: int| 0int).last() == 0);
    }
}

/// Non-negative weights on values of at least `lo` sum to at least
/// `lo` times the total weight; on values of at most `hi`, to at most.
proof fn lemma_weighted_sum_bounds(c: Seq<int>, x: Seq<int>, lo: int, hi: int)
    requires
        c.len() <= x.len(),
        forall|j: int| 0 <= j < c.len() ==> c[j] >= 0,
        forall|j: int| 0 <= j < c.len() ==> lo <= #[trigger] x[j] <= hi,
    ensures
        seq_sum(c) * lo <= weighted_sum(c, x) <= seq_sum(c) * hi,
    decreases c.len(),
{
    if c.len() > 0 {
        let t = c.drop_last();
        lemma_weighted_sum_bounds(t, x, lo, hi);
        let w = c.last();
        let v = x[c.len() - 1];
        assert(w * lo <= w * v <= w * hi) by (nonlinear_arith)
            requires
                w >= 0,
                lo <= v <= hi,
        ;
        assert(seq_sum(c) * lo == seq_sum(t) * lo + w * lo) by (nonlinear_arith)
            requires
                seq_sum(c) == seq_sum(t) + w,
        ;
        assert(seq_sum(c) * hi == seq_sum(t) * hi + w * hi) by (nonlinear_arith)
            requires
                seq_sum(c) == seq_sum(t) + w,
        ;
    }
}

/// After a step, the new upper estimate is at least the lower price and the
/// new lower estimate at most the upper price.
proof fn lemma_step_estimates_enclose_prices(s: SolverState, a: int, b: int)
    requires
        state_inv(s),
        0 <= a < s.matrix.len(),
        0 <= b < s.matrix.len(),
        s.k < MAX_ITERATIONS,
    ensures
        ({
            let t = step_state(s, a, b);
            &&& seq_max(t.a_scores) >= (s.k + 1) * lower_price(s.matrix)
            &&& seq_min(t.b_scores) <= (s.k + 1) * upper_price(s.matrix)
        }),
{
    let m = s.matrix;
    let n = m.len();
    let t = step_state(s, a, b);
    assert(t.a_counts.len() == n);
    lemma_seq_sum_bump(s.a_counts, a);
    lemma_seq_sum_bump(s.b_counts, b);
    // The row attaining the lower price.
    let rm = crate::zero_sum::row_minima(m);
    lemma_seq_max(rm);
    let r = choose|r: int| 0 <= r < rm.len() && rm[r] == seq_max(rm);
    assert(m[r].len() == n);
    lemma_seq_min(m[r]);
    lemma_seq_max(m[r]);
    lemma_weighted_sum_bump(s.b_counts, m[r], b);
    assert forall|j: int| 0 <= j < t.b_counts.len() implies t.b_counts[j] >= 0 by {
        assert(0 <= s.b_counts[j]);
    }
    lemma_weighted_sum_bounds(t.b_counts, m[r], lower_price(m), seq_max(m[r]));
    lemma_seq_max(t.a_scores);
    assert(t.a_scores[r] == weighted_sum(t.b_counts, m[r]));
    // The column attaining the upper price.
    let cm = crate::zero_sum::column_maxima(m);
    lemma_seq_min(cm);
    let c = choose|c: int| 0 <= c < cm.len() && cm[c] == seq_min(cm);
    let col = column(m, c);
    lemma_seq_max(col);
    lemma_seq_min(col);
    lemma_weighted_sum_bump(s.a_counts, col, a);
    assert(column(m, c)[a] == m[a][c]);
    assert forall|i: int| 0 <= i < t.a_counts.len() implies t.a_counts[i] >= 0 by {
        assert(0 <= s.a_counts[i]);
    }
    lemma_weighted_sum_bounds(t.a_counts, col, seq_min(col), upper_price(m));
    lemma_seq_min(t.b_scores);
    assert(t.b_scores[c] == weighted_sum(t.a_counts, col));
}

proof fn lemma_weighted_sum_zero(c: Seq<int>, x: Seq<int>)
    requires
        forall|j: int| 0 <= j < c.len() ==> #[trigger] x[j] == 0,
    ensures
        weighted_sum(c, x) == 0,
    decreases c.len(),
{
    if c.len() > 0 {
        lemma_weighted_sum_zero(c.drop_last(), x);
        assert(c.last() * x[c.len() - 1] == 0);
    }
}

pub(crate) proof fn lemma_weighted_sum_linear(c: Seq<int>, y: Seq<int>, a: Seq<int>, b: Seq<int>, w: int)
    requires
        forall|j: int| 0 <= j < c.len() ==> #[trigger] y[j] == a[j] + w * b[j],
    ensures
        weighted_sum(c, y) == weighted_sum(c, a) + w * weighted_sum(c, b),
    decreases c.len(),
{
    if c.len() > 0 {
        let t = c.drop_last();
        lemma_weighted_sum_linear(t, y, a, b, w);
        let k = c.len() - 1;
        let (e, ak, bk) = (c.last(), a[k], b[k]);
        let (sa, sb) = (weighted_sum(t, a), weighted_sum(t, b));
        assert(y[k] == ak + w * bk);
        assert(e * (ak + w * bk) == e * ak + w * (e * bk)) by (nonlinear_arith);
        assert(w * sb + w * (e * bk) == w * (sb + e * bk)) by (nonlinear_arith);
    }
}

/// `sum_j q[j] sum_i p[i] m[i][j] == sum_i p[i] sum_j q[j] m[i][j]`.
proof fn lemma_weighted_sum_swap(m: Seq<Seq<int>>, p: Seq<int>, q: Seq<int>)
    requires
        is_square(m),
        p.len() <= m.len(),
        q.len() <= m.len(),
    ensures
        weighted_sum(q, Seq::new(m.len(), |j: int| weighted_sum(p, column(m, j)))) == weighted_sum(
            p,
            row_payoffs(m, q),
        ),
    decreases p.len(),
{
    let n = m.len();
    let cp = Seq::new(n, |j: int| weighted_sum(p, column(m, j)));
    if p.len() == 0 {
        lemma_weighted_sum_zero(q, cp);
    } else {
        let t = p.drop_last();
        let k = p.len() - 1;
        let w = p.last();
        lemma_weighted_sum_swap(m, t, q);
        let ct = Seq::new(n, |j: int| weighted_sum(t, column(m, j)));
        assert(m[k].len() == m[0].len());
        assert forall|j: int| 0 <= j < q.len() implies #[trigger] cp[j] == ct[j] + w * m[k][j] by {
            assert(column(m, j)[k] == m[k][j]);
        }
        lemma_weighted_sum_linear(q, cp, ct, m[k], w);
    }
}

/// What any mix of A secures never exceeds what any mix of B concedes.
pub proof fn lemma_guaranteed_le_conceded(m: Seq<Seq<int>>, p: Seq<int>, q: Seq<int>)
    requires
        is_square(m),
        is_mix(p, m.len() as int),
        is_mix(q, m.len() as int),
    ensures
        ratio_le(guaranteed(m, p), conceded(m, q)),
{
    let n = m.len();
    let cp = column_payoffs(m, p);
    let rp = row_payoffs(m, q);
    assert(cp =~= Seq::new(n, |j: int| weighted_sum(p, column(m, j))));
    lemma_weighted_sum_swap(m, p, q);
    lemma_seq_min(cp);
    lemma_seq_max(cp);
    lemma_seq_min(rp);
    lemma_seq_max(rp);
    lemma_weighted_sum_bounds(q, cp, seq_min(cp), seq_max(cp));
    lemma_weighted_sum_bounds(p, rp, seq_min(rp), seq_max(rp));
    let (g, c, sp, sq) = (seq_min(cp), seq_max(rp), seq_sum(p), seq_sum(q));
    assert(sq * g == g * sq && sp * c == c * sp) by (nonlinear_arith);
}

proof fn lemma_step_weights(s: SolverState, a: int, b: int)
    requires
        state_inv(s),
        0 <= a < s.matrix.len(),
        0 <= b < s.matrix.len(),
        ({
            let t = step_state(s, a, b);
            let n = s.matrix.len();
            &&& seq_sum(t.a_counts) == t.k
            &&& seq_sum(t.b_counts) == t.k
            &&& forall|u: int| 0 <= u < n ==> 0 <= #[trigger] t.a_counts[u]
            &&& forall|u: int| 0 <= u < n ==> 0 <= #[trigger] t.b_counts[u]
            &&& forall|u: int| 0 <= u < n ==> #[trigger] t.a_scores[u] == weighted_sum(t.b_counts, s.matrix[u])
            &&& forall|u: int|
                0 <= u < n ==> #[trigger] t.b_scores[u] == weighted_sum(t.a_counts, column(s.matrix, u))
        }),
    ensures
        ({
            let t = step_state(s, a, b);
            let n = s.matrix.len();
            &&& is_mix(t.low_weights, n as int)
            &&& t.max_low_price == guaranteed(s.matrix, t.low_weights)
            &&& is_mix(t.high_weights, n as int)
            &&& t.min_high_price == conceded(s.matrix, t.high_weights)
            &&& ratio_le(t.max_low_price, t.min_high_price)
        }),
{
    let t = step_state(s, a, b);
    let m = s.matrix;
    let n = m.len();
    assert(t.b_scores =~= column_payoffs(m, t.a_counts));
    assert(t.a_scores =~= row_payoffs(m, t.b_counts));
    assert(t.a_counts.len() == n);
    lemma_guaranteed_le_conceded(m, t.low_weights, t.high_weights);
}

proof fn lemma_mul_abs_bound(x: int, y: int, bx: int, by_: int)
    requires
        -bx <= x <= bx,
        0 <= y <= by_,
    ensures
        -bx * by_ <= x * y <= bx * by_,
{
    assert(-bx * by_ <= x * y <= bx * by_) by (nonlinear_arith)
        requires
            -bx <= x <= bx,
            0 <= y <= by_,
    ;
}

impl BrownRobinson {
    /// The solver's invariant.
    pub open spec fn wf(&self) -> bool {
        state_inv(self@)
    }

    /// Starts the method on a square payoff matrix; no step is taken yet.
    pub fn new(game_matrix: Vec<Vec<i64>>) -> (r: Result<BrownRobinson, SolverError>)
        ensures
            ({
                let m = Game(game_matrix)@;
                &&& m.len() == 0 <==> r == Err::<BrownRobinson, SolverError>(
                    SolverError::EmptyMatrix,
                )
                &&& (m.len() > 0 && has_ragged_row(m)) <==> r == Err::<BrownRobinson, SolverError>(
                    SolverError::NotSquare,
                )
                &&& (m.len() > 0 && !has_ragged_row(m) && !payoffs_in_range(m)) <==> r == Err::<
                    BrownRobinson,
                    SolverError,
                >(SolverError::PayoffOutOfRange)
                &&& r is Ok ==> {
                    let s = r->Ok_0@;
                    &&& r->Ok_0.wf()
                    &&& s.matrix == m
                    &&& s.k == 0
                    &&& s.a_counts == Seq::new(m.len(), |i: int| 0int)
                    &&& s.b_counts == Seq::new(m.len(), |i: int| 0int)
                    &&& s.a_scores == Seq::new(m.len(), |i: int| 0int)
                    &&& s.b_scores == Seq::new(m.len(), |i: int| 0int)
                }
            }),
    {
        let ghost m = Game(game_matrix)@;
        let n = game_matrix.len();
        if n == 0 {
            return Err(SolverError::EmptyMatrix);
        }
        let mut i: usize = 0;
        while i < n
            invariant
                n == game_matrix@.len(),
                m == Game(game_matrix)@,
                i <= n,
                forall|t: int| 0 <= t < i ==> #[trigger] m[t].len() == n,
            decreases n - i,
        {
            if game_matrix[i].len() != n {
                assert(m[i as int].len() != m.len());
                return Err(SolverError::NotSquare);
            }
            i += 1;
        }
        let mut i: usize = 0;
        while i < n
            invariant
                n == game_matrix@.len(),
                m == Game(game_matrix)@,
                !has_ragged_row(m),
                i <= n,
                forall|t: int, j: int|
                    0 <= t < i && 0 <= j < n ==> -MAX_PAYOFF <= #[trigger] m[t][j] <= MAX_PAYOFF,
            decreases n - i,
        {
            let mut j: usize = 0;
            assert(m[i as int].len() == n);
            while j < n
                invariant
                    n == game_matrix@.len(),
                    m == Game(game_matrix)@,
                    !has_ragged_row(m),
                    i < n,
                    j <= n,
                    m[i as int].len() == n,
                    forall|t: int, u: int|
                        0 <= t < i && 0 <= u < n ==> -MAX_PAYOFF <= #[trigger] m[t][u]
                            <= MAX_PAYOFF,
                    forall|u: int| 0 <= u < j ==> -MAX_PAYOFF <= #[trigger] m[i as int][u] <= MAX_PAYOFF,
                decreases n - j,
            {
                let x = game_matrix[i][j];
                if x < -MAX_PAYOFF || x > MAX_PAYOFF {
                    assert(m[i as int][j as int] == x);
                    return Err(SolverError::PayoffOutOfRange);
                }
                j += 1;
            }
            i += 1;
        }
        assert(payoffs_in_range(m)) by {
            assert forall|t: int, u: int|
                0 <= t < m.len() && 0 <= u < m[t].len() implies -MAX_PAYOFF <= #[trigger] m[t][u]
                <= MAX_PAYOFF by {
                assert(m[t].len() == n);
            }
        }
        let mut a_scores: Vec<i128> = Vec::new();
        let mut b_scores: Vec<i128> = Vec::new();
        let mut a_used: Vec<usize> = Vec::new();
        let mut b_used: Vec<usize> = Vec::new();
        let mut i: usize = 0;
        while i < n
            invariant
                i <= n,
                a_scores@.len() == i,
                b_scores@.len() == i,
                a_used@.len() == i,
                b_used@.len() == i,
                forall|t: int| 0 <= t < i ==> a_scores@[t] == 0 && b_scores@[t] == 0,
                forall|t: int| 0 <= t < i ==> a_used@[t] == 0 && b_used@[t] == 0,
            decreases n - i,
        {
            a_scores.push(0);
            b_scores.push(0);
            a_used.push(0);
            b_used.push(0);
            i += 1;
        }
        let r = BrownRobinson {
            game: Game(game_matrix),
            a_strategy: 0,
            b_strategy: 0,
            a_scores,
            b_scores,
            min_high_price: Fraction { num: 0, den: 1 },
            max_low_price: Fraction { num: 0, den: 1 },
            a_strategy_times_used: a_used,
            b_strategy_times_used: b_used,
            k: 0,
            low_weights: Ghost(Seq::empty()),
            high_weights: Ghost(Seq::empty()),
        };
        proof {
            let s = r@;
            let zeros = Seq::new(n as nat, |i: int| 0int);
            assert(s.a_counts =~= zeros);
            assert(s.b_counts =~= zeros);
            assert(s.a_scores =~= zeros);
            assert(s.b_scores =~= zeros);
            lemma_zero_sums(n as nat, Seq::empty());
            assert forall|t: int| 0 <= t < n implies #[trigger] s.a_scores[t] == weighted_sum(
                s.b_counts,
                m[t],
            ) by {
                lemma_zero_sums(n as nat, m[t]);
            }
            assert forall|t: int| 0 <= t < n implies #[trigger] s.b_scores[t] == weighted_sum(
                s.a_counts,
                column(m, t),
            ) by {
                lemma_zero_sums(n as nat, column(m, t));
            }
            assert(is_square(m)) by {
                assert forall|t: int| 0 <= t < m.len() implies #[trigger] m[t].len() == m[0].len() by {
                    assert(m[t].len() == n);
                    assert(m[0].len() == n);
                }
            }
        }
        Ok(r)
    }

    /// Takes one step in which A plays row `a` and B plays column `b`, and
    /// reports the new state.
    pub fn advance(&mut self, a: usize, b: usize) -> (row: BrownRobinsonRow)
        requires
            old(self).wf(),
            old(self)@.k < MAX_ITERATIONS,
            a < old(self)@.matrix.len(),
            b < old(self)@.matrix.len(),
        ensures
            final(self).wf(),
            final(self)@ == step_state(old(self)@, a as int, b as int),
            reports(row, final(self)@),
            old(self)@.k >= 1 ==> {
                &&& ratio_le(final(self)@.min_high_price, old(self)@.min_high_price)
                &&& ratio_le(old(self)@.max_low_price, final(self)@.max_low_price)
                &&& ratio_le(epsilon_of(final(self)@), epsilon_of(old(self)@))
            },
    {
        let ghost s = self@;
        let ghost m = s.matrix;
        let ghost t = step_state(s, a as int, b as int);
        let ghost bound = MAX_ITERATIONS * MAX_PAYOFF;
        let n = self.game.0.len();
        assert(m.len() == n);
        let mut a_scores: Vec<i128> = Vec::new();
        let mut b_scores: Vec<i128> = Vec::new();
        let mut i: usize = 0;
        while i < n
            invariant
                s == self@,
                m == s.matrix,
                state_inv(s),
                s.k < MAX_ITERATIONS,
                n == m.len(),
                a < n,
                b < n,
                i <= n,
                a_scores@.len() == i,
                b_scores@.len() == i,
                forall|u: int| 0 <= u < i ==> a_scores@[u] == s.a_scores[u] + m[u][b as int],
                forall|u: int| 0 <= u < i ==> b_scores@[u] == s.b_scores[u] + m[a as int][u],
            decreases n - i,
        {
            assert(m[i as int].len() == n);
            assert(m[a as int].len() == n);
            assert(s.a_scores[i as int] == self.a_scores@[i as int]);
            assert(s.b_scores[i as int] == self.b_scores@[i as int]);
            assert(-MAX_PAYOFF <= m[i as int][b as int] <= MAX_PAYOFF);
            assert(-MAX_PAYOFF <= m[a as int][i as int] <= MAX_PAYOFF);
            let x = self.a_scores[i] + self.game.0[i][b] as i128;
            let y = self.b_scores[i] + self.game.0[a][i] as i128;
            a_scores.push(x);
            b_scores.push(y);
            i += 1;
        }
        assert(wide_ints(a_scores@) =~= t.a_scores);
        assert(wide_ints(b_scores@) =~= t.b_scores);
        let high_num = max_wide(&a_scores);
        let low_num = min_wide(&b_scores);
        let k1 = self.k + 1;
        proof {
            lemma_seq_max(t.a_scores);
            lemma_seq_min(t.b_scores);
            lemma_step_estimates_enclose_prices(s, a as int, b as int);
        }
        let high = Fraction { num: high_num, den: k1 as i128 };
        let low = Fraction { num: low_num, den: k1 as i128 };
        let ghost old_high = self.min_high_price.ratio();
        let ghost old_low = self.max_low_price.ratio();
        if self.k == 0 {
            self.min_high_price = high;
            self.max_low_price = low;
            self.low_weights = Ghost(t.a_counts);
            self.high_weights = Ghost(t.b_counts);
        } else {
            proof {
                lemma_mul_abs_bound(high.num as int, old_high.1, k1 * MAX_PAYOFF, MAX_ITERATIONS as int);
                lemma_mul_abs_bound(old_high.0, k1 as int, old_high.1 * MAX_PAYOFF, MAX_ITERATIONS as int);
                lemma_mul_abs_bound(low.num as int, old_low.1, k1 * MAX_PAYOFF, MAX_ITERATIONS as int);
                lemma_mul_abs_bound(old_low.0, k1 as int, old_low.1 * MAX_PAYOFF, MAX_ITERATIONS as int);
                assert(k1 * MAX_PAYOFF <= bound);
                assert(old_high.1 * MAX_PAYOFF <= bound);
                assert(old_low.1 * MAX_PAYOFF <= bound);
                lemma_bound_product(k1 * MAX_PAYOFF);
                lemma_bound_product(old_high.1 * MAX_PAYOFF);
                lemma_bound_product(old_low.1 * MAX_PAYOFF);
            }
            if high.num * self.min_high_price.den <= self.min_high_price.num * high.den {
                self.min_high_price = high;
                self.high_weights = Ghost(t.b_counts);
            }
            if self.max_low_price.num * low.den <= low.num * self.max_low_price.den {
                self.max_low_price = low;
                self.low_weights = Ghost(t.a_counts);
            }
        }
        let c = self.a_strategy_times_used[a];
        self.a_strategy_times_used.set(a, c + 1);
        let c = self.b_strategy_times_used[b];
        self.b_strategy_times_used.set(b, c + 1);
        self.a_strategy = a;
        self.b_strategy = b;
        self.k = k1;
        let row_a = a_scores.clone();
        let row_b = b_scores.clone();
        self.a_scores = a_scores;
        self.b_scores = b_scores;
        let mh = self.min_high_price;
        let ml = self.max_low_price;
        proof {
            lemma_mul_abs_bound(mh.num as int, ml.den as int, mh.den * MAX_PAYOFF, MAX_ITERATIONS as int);
            lemma_mul_abs_bound(ml.num as int, mh.den as int, ml.den * MAX_PAYOFF, MAX_ITERATIONS as int);
            lemma_mul_abs_bound(mh.den as int, ml.den as int, MAX_ITERATIONS as int, MAX_ITERATIONS as int);
            lemma_bound_product(mh.den * MAX_PAYOFF);
            lemma_bound_product(ml.den * MAX_PAYOFF);
        }
        let epsilon = Fraction {
            num: mh.num * ml.den - ml.num * mh.den,
            den: mh.den * ml.den,
        };
        proof {
            let f = self@;
            assert(f.a_counts =~= t.a_counts);
            assert(f.b_counts =~= t.b_counts);
            assert(f == t);
            lemma_seq_sum_bump(s.a_counts, a as int);
            lemma_seq_sum_bump(s.b_counts, b as int);
            assert forall|u: int| 0 <= u < n implies #[trigger] t.a_scores[u] == weighted_sum(
                t.b_counts,
                m[u],
            ) by {
                lemma_weighted_sum_bump(s.b_counts, m[u], b as int);
            }
            assert forall|u: int| 0 <= u < n implies #[trigger] t.b_scores[u] == weighted_sum(
                t.a_counts,
                column(m, u),
            ) by {
                lemma_weighted_sum_bump(s.a_counts, column(m, u), a as int);
                assert(column(m, u)[a as int] == m[a as int][u]);
            }
            assert forall|u: int| 0 <= u < n implies 0 <= #[trigger] t.a_counts[u] <= t.k by {
                assert(0 <= s.a_counts[u] <= s.k);
            }
            assert forall|u: int| 0 <= u < n implies 0 <= #[trigger] t.b_counts[u] <= t.k by {
                assert(0 <= s.b_counts[u] <= s.k);
            }
            assert forall|u: int| 0 <= u < n implies -t.k * MAX_PAYOFF <= #[trigger] t.a_scores[u]
                <= t.k * MAX_PAYOFF by {
                assert(-s.k * MAX_PAYOFF <= s.a_scores[u] <= s.k * MAX_PAYOFF);
                assert(m[u].len() == n);
            }
            assert forall|u: int| 0 <= u < n implies -t.k * MAX_PAYOFF <= #[trigger] t.b_scores[u]
                <= t.k * MAX_PAYOFF by {
                assert(-s.k * MAX_PAYOFF <= s.b_scores[u] <= s.k * MAX_PAYOFF);
                assert(m[a as int].len() == n);
            }
            lemma_step_weights(s, a as int, b as int);
            lemma_step_estimates_enclose_prices(s, a as int, b as int);
            let (up, lo, kk) = (upper_price(m), lower_price(m), t.k);
            assert(kk * up == up * kk && kk * lo == lo * kk) by (nonlinear_arith);
            if s.k == 0 || ratio_le(s.max_low_price, (seq_min(t.b_scores), t.k)) {
                assert(ratio_le(t.max_low_price, (upper_price(m), 1)));
            } else {
                assert(t.max_low_price == s.max_low_price);
            }
            if s.k == 0 || ratio_le((seq_max(t.a_scores), t.k), s.min_high_price) {
                assert(ratio_le((lower_price(m), 1), t.min_high_price));
            } else {
                assert(t.min_high_price == s.min_high_price);
            }
            if s.k >= 1 {
                lemma_ratio_sub_monotone(
                    s.min_high_price,
                    s.max_low_price,
                    t.min_high_price,
                    t.max_low_price,
                );
            }
        }
        BrownRobinsonRow {
            iteration: k1,
            a_strategy: a,
            b_strategy: b,
            a_score: row_a,
            b_score: row_b,
            high_price: high,
            low_price: low,
            epsilon,
        }
    }

    /// Picks the next strategies by fictitious play: uniformly at random
    /// among the rows of greatest accumulated payoff and among the columns of
    /// least accumulated loss.
    fn next_strategies(&self, rng: &mut ChaCha20Rng) -> (r: (usize, usize))
        requires
            self.wf(),
            self@.k > 0,
        ensures
            is_best_response(self@, r.0 as int, r.1 as int),
    {
        let ghost s = self@;
        let n = self.a_scores.len();
        let max_a = max_wide(&self.a_scores);
        let min_b = min_wide(&self.b_scores);
        proof {
            lemma_seq_max(s.a_scores);
            lemma_seq_min(s.b_scores);
        }
        let ghost wa = choose|w: int| 0 <= w < n && s.a_scores[w] == seq_max(s.a_scores);
        let ghost wb = choose|w: int| 0 <= w < n && s.b_scores[w] == seq_min(s.b_scores);
        let mut a_indices: Vec<usize> = Vec::new();
        let mut b_indices: Vec<usize> = Vec::new();
        let mut i: usize = 0;
        while i < n
            invariant
                s == self@,
                state_inv(s),
                n == s.matrix.len(),
                0 <= wa < n,
                0 <= wb < n,
                s.a_scores[wa] == max_a,
                s.b_scores[wb] == min_b,
                i <= n,
                forall|u: int|
                    0 <= u < a_indices@.len() ==> #[trigger] a_indices@[u] < n && s.a_scores[a_indices@[u] as int] == max_a,
                forall|u: int|
                    0 <= u < b_indices@.len() ==> #[trigger] b_indices@[u] < n && s.b_scores[b_indices@[u] as int] == min_b,
                wa < i ==> a_indices@.len() > 0,
                wb < i ==> b_indices@.len() > 0,
            decreases n - i,
        {
            assert(s.a_scores[i as int] == self.a_scores@[i as int]);
            assert(s.b_scores[i as int] == self.b_scores@[i as int]);
            if self.a_scores[i] == max_a {
                a_indices.push(i);
            }
            if self.b_scores[i] == min_b {
                b_indices.push(i);
            }
            i += 1;
        }
        let a = choose_one(&a_indices, rng);
        let b = choose_one(&b_indices, rng);
        proof {
            let u = choose|u: int| 0 <= u < a_indices@.len() && a_indices@[u] == a;
            assert(a_indices@[u] < n);
            let v = choose|v: int| 0 <= v < b_indices@.len() && b_indices@[v] == b;
            assert(b_indices@[v] < n);
        }
        (a, b)
    }

    /// Takes the next step of the method and reports it: at the first step
    /// both players pick a strategy uniformly at random, afterwards they
    /// best-respond. The method has no end of its own; only the machine limit
    /// of its exact arithmetic, `MAX_ITERATIONS` steps, ends the records.
    pub fn next(&mut self, rng: &mut ChaCha20Rng) -> (r: Option<BrownRobinsonRow>)
        requires
            old(self).wf(),
        ensures
            final(self).wf(),
            r is Some <==> old(self)@.k < MAX_ITERATIONS,
            r is None ==> final(self)@ == old(self)@,
            r is Some ==> {
                let row = r->Some_0;
                &&& is_best_response(old(self)@, row.a_strategy as int, row.b_strategy as int)
                &&& final(self)@ == step_state(
                    old(self)@,
                    row.a_strategy as int,
                    row.b_strategy as int,
                )
                &&& reports(row, final(self)@)
                &&& old(self)@.k >= 1 ==> ratio_le(epsilon_of(final(self)@), epsilon_of(old(self)@))
            },
    {
        if self.k >= MAX_ITERATIONS {
            return None;
        }
        let (a, b) = if self.k == 0 {
            let n = self.game.0.len();
            let a = random_below(rng, n);
            let b = random_below(rng, n);
            (a, b)
        } else {
            self.next_strategies(rng)
        };
        Some(self.advance(a, b))
    }

    /// The lower price (max-min) and the upper price (min-max) of the game.
    pub fn bounds(&self) -> (r: (i64, i64))
        requires
            self.wf(),
        ensures
            r.0 == lower_price(self@.matrix),
            r.1 == upper_price(self@.matrix),
    {
        let (_, low) = self.game.lowest_price();
        let (_, high) = self.game.highest_price();
        (low, high)
    }

    /// The game being solved.
    pub fn game(&self) -> (r: &Game)
        ensures
            r@ == self@.matrix,
    {
        &self.game
    }

    /// The greatest lower estimate and the least upper estimate so far.
    pub fn min_max_prices(&self) -> (r: (Fraction, Fraction))
        ensures
            r.0.ratio() == self@.max_low_price,
            r.1.ratio() == self@.min_high_price,
    {
        (self.max_low_price, self.min_high_price)
    }

    /// The estimate of the game's value: the midpoint of the running bounds.
    pub fn price_estimation(&self) -> (r: Fraction)
        requires
            self.wf(),
        ensures
            r.ratio() == ratio_midpoint(self@.max_low_price, self@.min_high_price),
            self@.k >= 1 ==> ratio_le(self@.max_low_price, r.ratio()) && ratio_le(
                r.ratio(),
                self@.min_high_price,
            ),
    {
        proof {
            if self@.k >= 1 {
                lemma_midpoint_between(self@.max_low_price, self@.min_high_price);
            }
        }
        let ml = self.max_low_price;
        let mh = self.min_high_price;
        proof {
            if self@.k >= 1 {
                lemma_mul_abs_bound(ml.num as int, mh.den as int, ml.den * MAX_PAYOFF, MAX_ITERATIONS as int);
                lemma_mul_abs_bound(mh.num as int, ml.den as int, mh.den * MAX_PAYOFF, MAX_ITERATIONS as int);
                lemma_mul_abs_bound(ml.den as int, mh.den as int, MAX_ITERATIONS as int, MAX_ITERATIONS as int);
                lemma_bound_product(ml.den * MAX_PAYOFF);
                lemma_bound_product(mh.den * MAX_PAYOFF);
                assert(2 * (ml.den * mh.den) == 2 * ml.den * mh.den) by (nonlinear_arith);
            }
        }
        Fraction { num: ml.num * mh.den + mh.num * ml.den, den: 2 * ml.den * mh.den }
    }

    /// The number of steps taken.
    pub fn k(&self) -> (r: usize)
        ensures
            r == self@.k,
    {
        self.k
    }

    /// How often each strategy of A and of B has been chosen.
    pub fn strategies_used(&self) -> (r: (Vec<usize>, Vec<usize>))
        ensures
            count_ints(r.0@) == self@.a_counts,
            count_ints(r.1@) == self@.b_counts,
    {
        (self.a_strategy_times_used.clone(), self.b_strategy_times_used.clone())
    }
}

proof fn lemma_bound_product(x: int)
    requires
        x <= MAX_ITERATIONS * MAX_PAYOFF,
    ensures
        x * MAX_ITERATIONS <= 0x3fff_ffff_ffff_ffff_ffff_ffff_ffff_ffff,
{
    assert(x * MAX_ITERATIONS <= MAX_ITERATIONS * MAX_PAYOFF * MAX_ITERATIONS) by (nonlinear_arith)
        requires
            x <= MAX_ITERATIONS * MAX_PAYOFF,
    ;
}

/// Each player's use-counts always sum to the number of steps taken.
pub proof fn lemma_use_counts_sum_to_k(solver: &BrownRobinson)
    requires
        solver.wf(),
    ensures
        seq_sum(solver@.a_counts) == solver@.k,
        seq_sum(solver@.b_counts) == solver@.k,
{
}

/// From the second step on, a step never raises the least upper estimate,
/// never lowers the greatest lower estimate, and so never widens the gap
/// `epsilon` between them, whichever strategies are played.
pub proof fn lemma_running_bounds_tighten(s: SolverState, a: int, b: int)
    requires
        state_inv(s),
        1 <= s.k < MAX_ITERATIONS,
        0 <= a < s.matrix.len(),
        0 <= b < s.matrix.len(),
    ensures
        ratio_le(step_state(s, a, b).min_high_price, s.min_high_price),
        ratio_le(s.max_low_price, step_state(s, a, b).max_low_price),
        ratio_le(epsilon_of(step_state(s, a, b)), epsilon_of(s)),
{
    let t = step_state(s, a, b);
    lemma_seq_max(t.a_scores);
    lemma_seq_min(t.b_scores);
    lemma_ratio_sub_monotone(s.min_high_price, s.max_low_price, t.min_high_price, t.max_low_price);
}

/// After the first step the running bounds enclose the pure-strategy prices:
/// the least upper estimate is at least the lower price and the greatest
/// lower estimate at most the upper price. With a saddle point (equal
/// prices) they enclose the game's value.
pub proof fn lemma_running_bounds_enclose_prices(solver: &BrownRobinson)
    requires
        solver.wf(),
        solver@.k >= 1,
    ensures
        ratio_le((lower_price(solver@.matrix), 1), solver@.min_high_price),
        ratio_le(solver@.max_low_price, (upper_price(solver@.matrix), 1)),
        lower_price(solver@.matrix) == upper_price(solver@.matrix) ==> {
            &&& ratio_le(solver@.max_low_price, (lower_price(solver@.matrix), 1))
            &&& ratio_le((lower_price(solver@.matrix), 1), solver@.min_high_price)
        },
{
}

/// After the first step the running bounds enclose the game's value: the
/// least upper estimate is at least what any mix `p` of A secures, and the
/// greatest lower estimate at most what any mix `q` of B concedes. The value
/// is the largest secured payoff and the least conceded one, so it lies
/// between the bounds, and the estimate, their midpoint, lies within half of
/// `epsilon` of it.
pub proof fn lemma_running_bounds_enclose_value(s: SolverState, p: Seq<int>, q: Seq<int>)
    requires
        state_inv(s),
        s.k >= 1,
        is_mix(p, s.matrix.len() as int),
        is_mix(q, s.matrix.len() as int),
    ensures
        ratio_le(guaranteed(s.matrix, p), s.min_high_price),
        ratio_le(s.max_low_price, conceded(s.matrix, q)),
        ratio_le(s.max_low_price, s.min_high_price),
{
    lemma_guaranteed_le_conceded(s.matrix, p, s.high_weights);
    lemma_guaranteed_le_conceded(s.matrix, s.low_weights, q);
}

/// The midpoint of two ordered rationals lies between them.
proof fn lemma_midpoint_between(a: Ratio, b: Ratio)
    requires
        a.1 > 0,
        b.1 > 0,
        ratio_le(a, b),
    ensures
        ratio_le(a, ratio_midpoint(a, b)),
        ratio_le(ratio_midpoint(a, b), b),
{
    let (a0, a1, b0, b1) = (a.0, a.1, b.0, b.1);
    assert(a0 * (2 * a1 * b1) <= (a0 * b1 + b0 * a1) * a1) by (nonlinear_arith)
        requires
            a0 * b1 <= b0 * a1,
            a1 > 0,
    ;
    assert((a0 * b1 + b0 * a1) * b1 <= b0 * (2 * a1 * b1)) by (nonlinear_arith)
        requires
            a0 * b1 <= b0 * a1,
            b1 > 0,
    ;
}

} // verus!
