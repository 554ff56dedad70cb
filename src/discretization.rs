//! The refinement driver for continuous convex-concave games: it solves the
//! game on finer and finer grids of the unit square until the estimated
//! value stops moving.
use rand_chacha::ChaCha20Rng;
use vstd::prelude::*;

use crate::brown_robinson::{
    conceded, epsilon_of, guaranteed, has_ragged_row, is_mix, lemma_running_bounds_enclose_value,
    payoffs_in_range, state_inv, BrownRobinson, SolverError, SolverState, MAX_ITERATIONS,
    MAX_PAYOFF,
};
use crate::continuous::{scaled_kernel, ContinuousConvexConcaveGame, GameSolution};
use crate::extremes::{count_ints, seq_max};
use crate::fraction::{lemma_abs_mul_le, ratio_le, ratio_midpoint, Fraction, Ratio};
use crate::window::{is_settled, window_push, DeltaWindow};
use crate::zero_sum::{is_square, lower_price, row_minima, upper_price, Game};

verus! {

/// Values of the continuous game are compared in units of `1 / VALUE_SCALE`;
/// the accuracy is given in these units.
pub const VALUE_SCALE: i128 = 1_000_000;

/// The finest grid the driver builds has `MAX_REFINEMENT + 1` points per side.
pub const MAX_REFINEMENT: usize = 65_535;

/// Why the driver cannot go on.
#[derive(Clone, Copy, Debug, PartialEq, Eq, Structural)]
pub enum DriverError {
    /// The window size is zero.
    InvalidWindowSize,
    /// The accuracy is zero: no run of the Brown-Robinson method could reach it.
    InvalidAccuracy,
    /// The next grid is finer than `MAX_REFINEMENT` or has a payoff out of
    /// the solver's range.
    MatrixTooLarge,
    /// The Brown-Robinson method took `MAX_ITERATIONS` steps without
    /// reaching the accuracy.
    NotConverged,
}

/// The payoff matrix of the grid with step `1 / n`: entry `[i][j]` is
/// `n^2 * H(i / n, j / n)`.
pub open spec fn grid(k: Seq<int>, n: int) -> Seq<Seq<int>> {
    Seq::new((n + 1) as nat, |i: int| Seq::new((n + 1) as nat, |j: int| scaled_kernel(k, i, j, n)))
}

/// `floor(r * VALUE_SCALE)` for a rational `r` with a positive denominator.
pub open spec fn scaled_floor(r: Ratio) -> int {
    (r.0 * VALUE_SCALE) / r.1
}

/// The change between two scaled values, capped at `u64::MAX`.
pub open spec fn delta_of(previous: int, current: int) -> int {
    let d = if current >= previous {
        current - previous
    } else {
        previous - current
    };
    if d > u64::MAX {
        u64::MAX as int
    } else {
        d
    }
}

/// A gap measured on the grid with step `1 / n` (in units of `1 / n^2`) is
/// below `accuracy / VALUE_SCALE`.
pub open spec fn gap_below(eps: Ratio, accuracy: int, n: int) -> bool {
    eps.0 * VALUE_SCALE < accuracy * (n * n) * eps.1
}

/// The running bounds of `s` enclose the value of its game: the least upper
/// estimate is at least what any mix of A secures, and the greatest lower
/// estimate at most what any mix of B concedes.
pub open spec fn encloses_value(s: SolverState) -> bool {
    forall|p: Seq<int>, q: Seq<int>|
        #![trigger is_mix(p, s.matrix.len() as int), is_mix(q, s.matrix.len() as int)]
        is_mix(p, s.matrix.len() as int) && is_mix(q, s.matrix.len() as int) ==> ratio_le(
            guaranteed(s.matrix, p),
            s.min_high_price,
        ) && ratio_le(s.max_low_price, conceded(s.matrix, q))
}

/// A run of the Brown-Robinson method on the grid with step `1 / n` that
/// took `MAX_ITERATIONS` steps with its gap never below the accuracy.
pub open spec fn did_not_converge(s: SolverState, m: Seq<Seq<int>>, accuracy: int, n: int) -> bool {
    &&& state_inv(s)
    &&& s.matrix == m
    &&& s.k == MAX_ITERATIONS
    &&& !gap_below(epsilon_of(s), accuracy, n)
}

/// `i` is the first index of a largest element of `s`.
pub open spec fn is_first_max_index(s: Seq<int>, i: int) -> bool {
    &&& 0 <= i < s.len()
    &&& s[i] == seq_max(s)
    &&& forall|t: int| 0 <= t < i ==> s[t] < s[i]
}

/// The solution that a run of the Brown-Robinson method on the grid with
/// step `1 / n` gives: each player's most used strategy (the first one on a
/// tie) as the point, and the midpoint of the running bounds as the value.
pub open spec fn estimates(s: SolverState, n: int, sol: GameSolution) -> bool {
    let mid = ratio_midpoint(s.max_low_price, s.min_high_price);
    &&& sol.x.den == n
    &&& is_first_max_index(s.a_counts, sol.x.num as int)
    &&& sol.y.den == n
    &&& is_first_max_index(s.b_counts, sol.y.num as int)
    &&& sol.h.ratio() == (mid.0, mid.1 * (n * n))
}

/// The solution at a saddle point of the grid with step `1 / n`: the first
/// row of the lower price, the first column of the upper price, and their
/// common price.
pub open spec fn saddle_solution(m: Seq<Seq<int>>, n: int, sol: GameSolution) -> bool {
    &&& sol.x.den == n
    &&& 0 <= sol.x.num < m.len()
    &&& row_minima(m)[sol.x.num as int] == lower_price(m)
    &&& forall|i: int| 0 <= i < sol.x.num ==> row_minima(m)[i] < lower_price(m)
    &&& sol.y.den == n
    &&& 0 <= sol.y.num < m.len()
    &&& crate::zero_sum::column_maxima(m)[sol.y.num as int] == upper_price(m)
    &&& forall|j: int|
        0 <= j < sol.y.num ==> crate::zero_sum::column_maxima(m)[j] > upper_price(m)
    &&& sol.h.ratio() == (lower_price(m), n * n)
}

/// The driver produces nothing more: it stopped on an error, or its window
/// is full and sums to at most the accuracy.
pub open spec fn halted(d: DriverState) -> bool {
    d.aborted || is_settled(d.window_size, d.window, d.accuracy)
}

/// The payoff matrix of the driver's next grid.
pub open spec fn next_grid(d: DriverState) -> Seq<Seq<int>> {
    grid(d.k, d.n + 1)
}

/// The state of a driver, in mathematical terms.
pub struct DriverState {
    /// The kernel's coefficients.
    pub k: Seq<int>,
    /// The accuracy, in units of `1 / VALUE_SCALE`.
    pub accuracy: int,
    /// The step of the last grid is `1 / n`.
    pub n: int,
    /// The window's capacity.
    pub window_size: int,
    /// The recent changes of the scaled value.
    pub window: Seq<int>,
    /// The scaled value of the last estimate, if any.
    pub previous: Option<int>,
    /// Whether the driver stopped on an error.
    pub aborted: bool,
}

/// The driver's sequence of estimates, one per refinement.
pub struct Iter {
    game: ContinuousConvexConcaveGame,
    accuracy: u32,
    window: DeltaWindow,
    n: usize,
    previous_h: Option<i128>,
    aborted: bool,
}

impl View for Iter {
    type V = DriverState;

    closed spec fn view(&self) -> DriverState {
        DriverState {
            k: self.game.k(),
            accuracy: self.accuracy as int,
            n: self.n as int,
            window_size: self.window.spec_capacity(),
            window: self.window.entries(),
            previous: match self.previous_h {
                Some(p) => Some(p as int),
                None => None,
            },
            aborted: self.aborted,
        }
    }
}

/// `floor(v * VALUE_SCALE)`.
fn scaled_floor_of(v: Fraction) -> (r: i128)
    requires
        v.den > 0,
        v.den <= 0x10_0000_0000_0000_0000_0000_0000,
        -0x40_0000_0000_0000_0000_0000_0000 <= v.num <= 0x40_0000_0000_0000_0000_0000_0000,
    ensures
        r == scaled_floor(v.ratio()),
        -0x40_0000_0000_0000_0000_0000_0000 * VALUE_SCALE <= r <= 0x40_0000_0000_0000_0000_0000_0000
            * VALUE_SCALE,
{
    let a = v.num * VALUE_SCALE;
    let d = v.den;
    if a >= 0 {
        let q = a / d;
        proof {
            vstd::arithmetic::div_mod::lemma_fundamental_div_mod(a as int, d as int);
            vstd::arithmetic::div_mod::lemma_mod_pos_bound(a as int, d as int);
            assert(q * d <= a) by (nonlinear_arith)
                requires
                    a == d * q + a % d,
                    0 <= a % d,
            ;
            assert(q <= a) by (nonlinear_arith)
                requires
                    q * d <= a,
                    d >= 1,
                    a >= 0,
            ;
            assert(q >= 0) by (nonlinear_arith)
                requires
                    a == d * q + a % d,
                    a % d < d,
                    a >= 0,
                    d > 0,
            ;
        }
        q
    } else {
        let x = -a + d - 1;
        let q = x / d;
        proof {
            vstd::arithmetic::div_mod::lemma_fundamental_div_mod(x as int, d as int);
            vstd::arithmetic::div_mod::lemma_mod_pos_bound(x as int, d as int);
            let rem = a + q * d;
            assert(0 <= rem < d) by (nonlinear_arith)
                requires
                    x == d * q + x % d,
                    0 <= x % d < d,
                    x == -a + d - 1,
                    rem == a + q * d,
            ;
            assert(a == (-q) * d + rem) by (nonlinear_arith)
                requires
                    rem == a + q * d,
            ;
            vstd::arithmetic::div_mod::lemma_fundamental_div_mod_converse(a as int, d as int, -q, rem);
            assert(q >= 0) by (nonlinear_arith)
                requires
                    x == d * q + x % d,
                    x % d < d,
                    x >= 0,
                    d > 0,
            ;
            assert(q * d <= x) by (nonlinear_arith)
                requires
                    x == d * q + x % d,
                    0 <= x % d,
            ;
            assert(q <= x) by (nonlinear_arith)
                requires
                    q * d <= x,
                    d >= 1,
                    q >= 0,
            ;
            assert(-q * d <= a) by (nonlinear_arith)
                requires
                    0 <= a + q * d,
            ;
            assert(q <= -a) by (nonlinear_arith)
                requires
                    a + q * d < d,
                    d >= 1,
                    q >= 0,
                    a < 0,
            ;
        }
        -q
    }
}

/// The payoff matrix of the grid with step `1 / n`, if all its payoffs are
/// in the solver's range.
fn grid_matrix(game: &ContinuousConvexConcaveGame, n: usize) -> (r: Option<Vec<Vec<i64>>>)
    requires
        1 <= n <= MAX_REFINEMENT,
    ensures
        r is Some <==> payoffs_in_range(grid(game.k(), n as int)),
        r is Some ==> Game(r->Some_0)@ == grid(game.k(), n as int),
{
    let ghost g = grid(game.k(), n as int);
    let size = n + 1;
    let mut rows: Vec<Vec<i64>> = Vec::new();
    let mut i: usize = 0;
    while i < size
        invariant
            size == n + 1,
            1 <= n <= MAX_REFINEMENT,
            g == grid(game.k(), n as int),
            i <= size,
            rows@.len() == i,
            forall|t: int| 0 <= t < i ==> #[trigger] rows@[t]@.len() == size,
            forall|t: int, u: int|
                0 <= t < i && 0 <= u < size ==> #[trigger] rows@[t]@[u] as int == g[t][u],
            forall|t: int, u: int|
                0 <= t < i && 0 <= u < size ==> -MAX_PAYOFF <= #[trigger] g[t][u] <= MAX_PAYOFF,
        decreases size - i,
    {
        let mut row: Vec<i64> = Vec::new();
        let mut j: usize = 0;
        while j < size
            invariant
                size == n + 1,
                1 <= n <= MAX_REFINEMENT,
                g == grid(game.k(), n as int),
                i < size,
                j <= size,
                row@.len() == j,
                forall|u: int| 0 <= u < j ==> #[trigger] row@[u] as int == g[i as int][u],
                forall|u: int| 0 <= u < j ==> -MAX_PAYOFF <= #[trigger] g[i as int][u] <= MAX_PAYOFF,
            decreases size - j,
        {
            let v = game.scaled_value(i as i128, j as i128, n as i128, 65_536).num;
            assert(g[i as int][j as int] == v);
            if v < -(MAX_PAYOFF as i128) || v > MAX_PAYOFF as i128 {
                proof {
                    assert(g[i as int].len() == size);
                }
                return None;
            }
            row.push(v as i64);
            j += 1;
        }
        rows.push(row);
        proof {
            assert forall|t: int, u: int|
                0 <= t <= i && 0 <= u < size implies -MAX_PAYOFF <= #[trigger] g[t][u]
                <= MAX_PAYOFF by {
                if t == i {
                    assert(g[i as int][u] == g[t][u]);
                }
            }
        }
        i += 1;
    }
    proof {
        assert forall|t: int, u: int| 0 <= t < g.len() && 0 <= u < g[t].len() implies -MAX_PAYOFF
            <= #[trigger] g[t][u] <= MAX_PAYOFF by {}
        let m = Game(rows)@;
        assert forall|t: int| 0 <= t < g.len() implies #[trigger] m[t] =~= g[t] by {
            assert(rows@[t]@.len() == size);
        }
        assert(m =~= g);
    }
    Some(rows)
}

/// The first index of a largest element of a non-empty vector.
fn first_max_index(v: &Vec<usize>) -> (r: usize)
    requires
        v.len() > 0,
    ensures
        is_first_max_index(count_ints(v@), r as int),
{
    let mut best: usize = 0;
    let mut i: usize = 1;
    while i < v.len()
        invariant
            0 < i <= v.len(),
            best < i,
            forall|t: int| 0 <= t < i ==> v@[t] <= v@[best as int],
            forall|t: int| 0 <= t < best ==> v@[t] < v@[best as int],
        decreases v.len() - i,
    {
        if v[i] > v[best] {
            best = i;
        }
        i += 1;
    }
    proof {
        let s = count_ints(v@);
        crate::extremes::lemma_is_seq_max(s, s[best as int], best as int);
    }
    best
}

/// The estimate that a run of the Brown-Robinson method on the grid with
/// step `1 / n` gives.
pub fn solution_from_solver(solver: &BrownRobinson, n: usize) -> (r: GameSolution)
    requires
        solver.wf(),
        1 <= n <= MAX_REFINEMENT,
        solver@.matrix.len() == n + 1,
    ensures
        estimates(solver@, n as int, r),
{
    let ghost s = solver@;
    let (a_used, b_used) = solver.strategies_used();
    assert(count_ints(a_used@).len() == a_used@.len());
    assert(count_ints(b_used@).len() == b_used@.len());
    let x = first_max_index(&a_used);
    let y = first_max_index(&b_used);
    let p = solver.price_estimation();
    proof {
        lemma_abs_mul_le(n as int, n as int, 65_536, 65_536);
    }
    let nn = (n as i128) * (n as i128);
    proof {
        assert(nn >= 1) by (nonlinear_arith)
            requires
                nn == n * n,
                n >= 1,
        ;
        let ml = s.max_low_price;
        let mh = s.min_high_price;
        if s.k >= 1 {
            lemma_abs_mul_le(ml.1, mh.1, MAX_ITERATIONS as int, MAX_ITERATIONS as int);
        }
        assert(1 <= p.den <= 2 * MAX_ITERATIONS * MAX_ITERATIONS) by (nonlinear_arith)
            requires
                p.den == 2 * ml.1 * mh.1,
                1 <= ml.1 <= MAX_ITERATIONS,
                1 <= mh.1 <= MAX_ITERATIONS,
                ml.1 * mh.1 <= MAX_ITERATIONS * MAX_ITERATIONS,
        ;
        lemma_abs_mul_le(n as int, n as int, 65_536, 65_536);
        lemma_abs_mul_le(p.den as int, nn as int, 2 * (MAX_ITERATIONS as int) * (MAX_ITERATIONS as int), 0x1_0000_0000);
        assert(p.den * nn > 0) by (nonlinear_arith)
            requires
                p.den >= 1,
                nn >= 1,
        ;
    }
    GameSolution {
        x: Fraction { num: x as i128, den: n as i128 },
        y: Fraction { num: y as i128, den: n as i128 },
        h: Fraction { num: p.num, den: p.den * nn },
    }
}

/// The sizes of the gap and of the midpoint of the running bounds.
proof fn lemma_running_bound_sizes(s: SolverState)
    requires
        state_inv(s),
        s.k >= 1,
    ensures
        1 <= epsilon_of(s).1 <= 0x1000_0000_0000_0000,
        -0x40_0000_0000_0000_0000_0000_0000 <= epsilon_of(s).0 <= 0x40_0000_0000_0000_0000_0000_0000,
        1 <= ratio_midpoint(s.max_low_price, s.min_high_price).1 <= 0x4000_0000_0000_0000,
        -0x40_0000_0000_0000_0000_0000_0000 <= ratio_midpoint(s.max_low_price, s.min_high_price).0
            <= 0x40_0000_0000_0000_0000_0000_0000,
{
    let mh = s.min_high_price;
    let ml = s.max_low_price;
    let it = MAX_ITERATIONS as int;
    let p = MAX_PAYOFF as int;
    lemma_abs_mul_le(mh.1, ml.1, it, it);
    lemma_abs_mul_le(mh.1, p, it, p);
    lemma_abs_mul_le(ml.1, p, it, p);
    lemma_abs_mul_le(mh.0, ml.1, it * p, it);
    lemma_abs_mul_le(ml.0, mh.1, it * p, it);
    assert(mh.1 * ml.1 >= 1) by (nonlinear_arith)
        requires
            mh.1 >= 1,
            ml.1 >= 1,
    ;
    assert(ml.1 * mh.1 == mh.1 * ml.1) by (nonlinear_arith);
    assert(2 * ml.1 * mh.1 == 2 * (ml.1 * mh.1)) by (nonlinear_arith);
}

/// Whether a gap on the grid with step `1 / n` is below the accuracy.
fn gap_below_exec(eps: &Fraction, accuracy: u32, n: usize) -> (r: bool)
    requires
        1 <= eps.den <= 0x1000_0000_0000_0000,
        -0x40_0000_0000_0000_0000_0000_0000 <= eps.num <= 0x40_0000_0000_0000_0000_0000_0000,
        1 <= n <= MAX_REFINEMENT,
    ensures
        r == gap_below(eps.ratio(), accuracy as int, n as int),
{
    proof {
        lemma_abs_mul_le(n as int, n as int, 65_536, 65_536);
        lemma_abs_mul_le(accuracy as int, n * n, 0x1_0000_0000, 0x1_0000_0000);
        lemma_abs_mul_le(accuracy * (n * n), eps.den as int, 0x1_0000_0000_0000_0000, 0x1000_0000_0000_0000);
    }
    let nn = (n as i128) * (n as i128);
    eps.num * VALUE_SCALE < (accuracy as i128) * nn * eps.den
}

/// The change between two scaled values, capped at `u64::MAX`.
fn delta_exec(previous: i128, current: i128) -> (r: u64)
    requires
        -0x40_0000_0000_0000_0000_0000_0000 * VALUE_SCALE <= previous <= 0x40_0000_0000_0000_0000_0000_0000
            * VALUE_SCALE,
        -0x40_0000_0000_0000_0000_0000_0000 * VALUE_SCALE <= current <= 0x40_0000_0000_0000_0000_0000_0000
            * VALUE_SCALE,
    ensures
        r == delta_of(previous as int, current as int),
{
    let d = if current >= previous {
        current - previous
    } else {
        previous - current
    };
    if d > u64::MAX as i128 {
        u64::MAX
    } else {
        d as u64
    }
}

/// Runs the Brown-Robinson method on the grid with step `1 / n` until the gap
/// is below the accuracy, and reads the estimate off the final state.
fn run_brown_robinson(matrix: Vec<Vec<i64>>, accuracy: u32, n: usize, rng: &mut ChaCha20Rng) -> (r:
    Result<GameSolution, DriverError>)
    requires
        is_square(Game(matrix)@),
        payoffs_in_range(Game(matrix)@),
        Game(matrix)@.len() == n + 1,
        1 <= n <= MAX_REFINEMENT,
    ensures
        r is Err ==> r == Err::<GameSolution, DriverError>(DriverError::NotConverged),
        r is Err ==> exists|s: SolverState| #[trigger]
            did_not_converge(s, Game(matrix)@, accuracy as int, n as int),
        r is Ok ==> exists|s: SolverState|
            {
                &&& state_inv(s)
                &&& s.matrix == Game(matrix)@
                &&& s.k >= 1
                &&& gap_below(epsilon_of(s), accuracy as int, n as int)
                &&& encloses_value(s)
                &&& #[trigger] estimates(s, n as int, r->Ok_0)
            },
{
    let ghost m = Game(matrix)@;
    proof {
        assert(!has_ragged_row(m)) by {
            assert forall|i: int| 0 <= i < m.len() implies !(#[trigger] m[i].len() != m.len()) by {
                assert(m[i].len() == m[0].len());
            }
        }
    }
    let mut solver = match BrownRobinson::new(matrix) {
        Ok(s) => s,
        Err(e) => {
            proof {
                match e {
                    SolverError::EmptyMatrix => {},
                    SolverError::NotSquare => {},
                    SolverError::PayoffOutOfRange => {},
                }
            }
            return Err(DriverError::NotConverged);
        },
    };
    let mut converged = false;
    while !converged && solver.k() < MAX_ITERATIONS
        invariant
            solver.wf(),
            solver@.matrix == m,
            1 <= n <= MAX_REFINEMENT,
            converged ==> solver@.k >= 1 && gap_below(epsilon_of(solver@), accuracy as int, n as int),
            !converged && solver@.k >= 1 ==> !gap_below(epsilon_of(solver@), accuracy as int, n as int),
        decreases MAX_ITERATIONS - solver@.k,
    {
        match solver.next(rng) {
            Some(record) => {
                proof {
                    lemma_running_bound_sizes(solver@);
                }
                if gap_below_exec(&record.epsilon, accuracy, n) {
                    converged = true;
                }
            },
            None => {},
        }
    }
    if !converged {
        proof {
            assert(did_not_converge(solver@, m, accuracy as int, n as int));
        }
        return Err(DriverError::NotConverged);
    }
    proof {
        assert forall|p: Seq<int>, q: Seq<int>|
            #![trigger is_mix(p, solver@.matrix.len() as int), is_mix(q, solver@.matrix.len() as int)]
            is_mix(p, solver@.matrix.len() as int) && is_mix(q, solver@.matrix.len() as int) implies ratio_le(
            guaranteed(solver@.matrix, p),
            solver@.min_high_price,
        ) && ratio_le(solver@.max_low_price, conceded(solver@.matrix, q)) by {
            lemma_running_bounds_enclose_value(solver@, p, q);
        }
        assert(encloses_value(solver@));
    }
    let sol = solution_from_solver(&solver, n);
    assert(estimates(solver@, n as int, sol));
    assert(state_inv(solver@));
    assert(solver@.matrix == m);
    assert(solver@.k >= 1);
    assert(gap_below(epsilon_of(solver@), accuracy as int, n as int));
    let r = Ok(sol);
    assert(r->Ok_0 == sol);
    assert(exists|s: SolverState|
        {
            &&& state_inv(s)
            &&& s.matrix == m
            &&& s.k >= 1
            &&& gap_below(epsilon_of(s), accuracy as int, n as int)
            &&& encloses_value(s)
            &&& #[trigger] estimates(s, n as int, r->Ok_0)
        }) by {
        assert(estimates(solver@, n as int, r->Ok_0));
    }
    r
}

impl ContinuousConvexConcaveGame {
    /// Starts the refinement driver with the given accuracy (in units of
    /// `1 / VALUE_SCALE`) and window size; both must be positive.
    pub fn iter(&self, accuracy: u32, window_size: usize) -> (r: Result<Iter, DriverError>)
        ensures
            (window_size == 0) <==> r == Err::<Iter, DriverError>(DriverError::InvalidWindowSize),
            (window_size > 0 && accuracy == 0) <==> r == Err::<Iter, DriverError>(
                DriverError::InvalidAccuracy,
            ),
            r is Err ==> window_size == 0 || accuracy == 0,
            r is Ok ==> {
                let d = r->Ok_0;
                &&& d.wf()
                &&& d@.k == self.k()
                &&& d@.accuracy == accuracy
                &&& d@.n == 1
                &&& d@.window_size == window_size
                &&& d@.window == Seq::<int>::empty()
                &&& d@.previous is None
                &&& !d@.aborted
            },
    {
        if window_size == 0 {
            return Err(DriverError::InvalidWindowSize);
        }
        if accuracy == 0 {
            return Err(DriverError::InvalidAccuracy);
        }
        Ok(Iter::new(self, accuracy, window_size))
    }
}

impl Iter {
    /// The driver's invariant.
    pub closed spec fn wf(&self) -> bool {
        &&& self.window.wf()
        &&& 1 <= self.n <= MAX_REFINEMENT
        &&& self.previous_h matches Some(p) ==> -0x40_0000_0000_0000_0000_0000_0000
            * VALUE_SCALE <= p <= 0x40_0000_0000_0000_0000_0000_0000 * VALUE_SCALE
    }

    /// A driver at step `1 / 1` with an empty window.
    pub fn new(game: &ContinuousConvexConcaveGame, accuracy: u32, window_size: usize) -> (r: Iter)
        requires
            0 < window_size,
            0 < accuracy,
        ensures
            r.wf(),
            r@.k == game.k(),
            r@.accuracy == accuracy,
            r@.n == 1,
            r@.window_size == window_size,
            r@.window == Seq::<int>::empty(),
            r@.previous is None,
            !r@.aborted,
    {
        Iter {
            game: *game,
            accuracy,
            window: DeltaWindow::new(window_size),
            n: 1,
            previous_h: None,
            aborted: false,
        }
    }

    /// The step of the last grid is `1 / n`.
    pub fn n(&self) -> (r: usize)
        ensures
            r == self@.n,
    {
        self.n
    }

    /// Refines the grid by one step and reports the new estimate of the
    /// game's solution: directly at a saddle point of the grid, else from a
    /// run of the Brown-Robinson method stopped once its gap is below the
    /// accuracy. Produces `Ok(None)` once the window of changes is full and
    /// sums to at most the accuracy, and after an error.
    pub fn next(&mut self, rng: &mut ChaCha20Rng) -> (r: Result<Option<GameSolution>, DriverError>)
        requires
            old(self).wf(),
        ensures
            final(self).wf(),
            final(self)@.k == old(self)@.k,
            final(self)@.accuracy == old(self)@.accuracy,
            final(self)@.window_size == old(self)@.window_size,
            halted(old(self)@) ==> r == Ok::<Option<GameSolution>, DriverError>(None)
                && final(self)@ == old(self)@,
            !halted(old(self)@) ==> ((old(self)@.n + 1 > MAX_REFINEMENT || !payoffs_in_range(
                next_grid(old(self)@),
            )) <==> r == Err::<Option<GameSolution>, DriverError>(DriverError::MatrixTooLarge)),
            !halted(old(self)@) && r == Err::<Option<GameSolution>, DriverError>(
                DriverError::NotConverged,
            ) ==> lower_price(next_grid(old(self)@)) != upper_price(next_grid(old(self)@)),
            !halted(old(self)@) && r is Err ==> final(self)@.aborted && final(self)@.n == old(
                self,
            )@.n && final(self)@.window == old(self)@.window,
            !halted(old(self)@) && r is Ok ==> r->Ok_0 is Some && !final(self)@.aborted
                && final(self)@.n == old(self)@.n + 1,
            !halted(old(self)@) && r is Ok && lower_price(next_grid(old(self)@)) == upper_price(
                next_grid(old(self)@),
            ) ==> saddle_solution(next_grid(old(self)@), old(self)@.n + 1, r->Ok_0->Some_0),
            !halted(old(self)@) && r is Ok && lower_price(next_grid(old(self)@)) != upper_price(
                next_grid(old(self)@),
            ) ==> exists|s: SolverState|
                {
                    &&& state_inv(s)
                    &&& s.matrix == next_grid(old(self)@)
                    &&& s.k >= 1
                    &&& gap_below(epsilon_of(s), old(self)@.accuracy, old(self)@.n + 1)
                    &&& encloses_value(s)
                    &&& #[trigger] estimates(s, old(self)@.n + 1, r->Ok_0->Some_0)
                },
            !halted(old(self)@) ==> r != Err::<Option<GameSolution>, DriverError>(
                DriverError::InvalidWindowSize,
            ) && r != Err::<Option<GameSolution>, DriverError>(DriverError::InvalidAccuracy),
            !halted(old(self)@) && old(self)@.n + 1 <= MAX_REFINEMENT && payoffs_in_range(
                next_grid(old(self)@),
            ) && lower_price(next_grid(old(self)@)) == upper_price(next_grid(old(self)@))
                ==> r is Ok,
            !halted(old(self)@) && r == Err::<Option<GameSolution>, DriverError>(
                DriverError::NotConverged,
            ) ==> exists|s: SolverState| #[trigger]
                did_not_converge(s, next_grid(old(self)@), old(self)@.accuracy, old(self)@.n + 1),
            !halted(old(self)@) && r is Ok ==> final(self)@.previous == Some(
                scaled_floor(r->Ok_0->Some_0.h.ratio()),
            ),
            !halted(old(self)@) && r is Ok ==> final(self)@.window == match old(self)@.previous {
                Some(p) => window_push(
                    old(self)@.window_size,
                    old(self)@.window,
                    delta_of(p, scaled_floor(r->Ok_0->Some_0.h.ratio())),
                ),
                None => old(self)@.window,
            },
    {
        let ghost start = self@;
        let ghost mut witness: SolverState = arbitrary();
        if self.aborted || self.window.is_settled(self.accuracy as u64) {
            return Ok(None);
        }
        if self.n >= MAX_REFINEMENT {
            self.aborted = true;
            return Err(DriverError::MatrixTooLarge);
        }
        let n = self.n + 1;
        let ghost m = grid(self.game.k(), n as int);
        let matrix = match grid_matrix(&self.game, n) {
            Some(matrix) => matrix,
            None => {
                self.aborted = true;
                return Err(DriverError::MatrixTooLarge);
            },
        };
        let game = Game::new(matrix);
        proof {
            assert(is_square(m)) by {
                assert forall|i: int| 0 <= i < m.len() implies #[trigger] m[i].len() == m[0].len() by {}
            }
        }
        let (row, lowest) = game.lowest_price();
        let (column, highest) = game.highest_price();
        let sol = if lowest == highest {
            proof {
                lemma_abs_mul_le(n as int, n as int, 65_536, 65_536);
                assert(n * n >= 1) by (nonlinear_arith)
                    requires
                        n >= 1,
                ;
                assert(row_minima(m)[row as int] == crate::extremes::seq_min(m[row as int]));
            }
            let nn = (n as i128) * (n as i128);
            let sol = GameSolution {
                x: Fraction { num: row as i128, den: n as i128 },
                y: Fraction { num: column as i128, den: n as i128 },
                h: Fraction { num: lowest as i128, den: nn },
            };
            assert(saddle_solution(m, n as int, sol));
            sol
        } else {
            match run_brown_robinson(game.0, self.accuracy, n, rng) {
                Ok(sol) => {
                    proof {
                        let s = choose|s: SolverState|
                            {
                                &&& state_inv(s)
                                &&& s.matrix == m
                                &&& s.k >= 1
                                &&& gap_below(epsilon_of(s), self.accuracy as int, n as int)
                                &&& encloses_value(s)
                                &&& #[trigger] estimates(s, n as int, sol)
                            };
                        lemma_running_bound_sizes(s);
                        lemma_abs_mul_le(n as int, n as int, 65_536, 65_536);
                        let mid = ratio_midpoint(s.max_low_price, s.min_high_price);
                        lemma_abs_mul_le(mid.1, n * n, 0x4000_0000_0000_0000, 0x1_0000_0000);
                        witness = s;
                        assert(n * n >= 1) by (nonlinear_arith)
                            requires
                                n >= 1,
                        ;
                        assert(mid.1 * (n * n) >= 1) by (nonlinear_arith)
                            requires
                                mid.1 >= 1,
                                n * n >= 1,
                        ;
                    }
                    sol
                },
                Err(e) => {
                    proof {
                        let s = choose|s: SolverState| #[trigger]
                            did_not_converge(s, m, self.accuracy as int, n as int);
                        assert(did_not_converge(s, next_grid(start), start.accuracy, start.n + 1));
                    }
                    self.aborted = true;
                    return Err(e);
                },
            }
        };
        let ghost before = self@;
        let current = scaled_floor_of(sol.h);
        match self.previous_h {
            Some(p) => {
                let d = delta_exec(p, current);
                self.window.push(d);
                assert(self.window.entries() == window_push(
                    before.window_size,
                    before.window,
                    delta_of(p as int, scaled_floor(sol.h.ratio())),
                ));
            },
            None => {},
        }
        self.previous_h = Some(current);
        self.n = n;
        assert(self@.previous == Some(scaled_floor(sol.h.ratio())));
        assert(self@.n == n);
        let r = Ok(Some(sol));
        proof {
            if lower_price(m) != upper_price(m) {
                assert(n == start.n + 1);
                assert(m == next_grid(start));
                assert(state_inv(witness));
                assert(witness.matrix == next_grid(start));
                assert(gap_below(epsilon_of(witness), start.accuracy, start.n + 1));
                assert(encloses_value(witness));
                assert(estimates(witness, start.n + 1, r->Ok_0->Some_0));
            }
        }
        r
    }
}

} // verus!
