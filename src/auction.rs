//! Closed (sealed-bid) auctions with independent private values: each of the
//! `n` bidders bids `(n - 1) / n` of their value, and the highest bid wins.
use vstd::prelude::*;

use crate::fraction::{ratio_le, Fraction};

verus! {

/// The largest number of bidders.
pub const MAX_BIDDERS: usize = 4_294_967_295;

/// The bid of each bidder: `value * (n - 1) / n`.
pub fn bets(values: &Vec<u32>) -> (r: Vec<Fraction>)
    requires
        0 < values.len() <= MAX_BIDDERS,
    ensures
        r@.len() == values@.len(),
        forall|i: int|
            0 <= i < r@.len() ==> #[trigger] r@[i].ratio() == (
                values@[i] * (values@.len() - 1),
                values@.len() as int,
            ),
{
    let n = values.len();
    let mut out: Vec<Fraction> = Vec::new();
    let mut i: usize = 0;
    while i < n
        invariant
            n == values@.len(),
            0 < n <= MAX_BIDDERS,
            i <= n,
            out@.len() == i,
            forall|t: int|
                0 <= t < i ==> #[trigger] out@[t].ratio() == (values@[t] * (n - 1), n as int),
        decreases n - i,
    {
        proof {
            crate::fraction::lemma_abs_mul_le(
                values@[i as int] as int,
                (n - 1) as int,
                u32::MAX as int,
                MAX_BIDDERS as int,
            );
        }
        let num = values[i] as i128 * (n - 1) as i128;
        out.push(Fraction { num, den: n as i128 });
        i += 1;
    }
    out
}

/// A bid-sized fraction: a numerator of at most 64 bits and a positive
/// denominator of at most 32.
pub open spec fn is_small(f: Fraction) -> bool {
    0 < f.den <= 0x1_0000_0000 && -0x1_0000_0000_0000_0000 <= f.num <= 0x1_0000_0000_0000_0000
}

/// The winning bidder and bid: the highest bid, the last one on a tie;
/// `None` without bidders.
pub fn winner(bids: &Vec<Fraction>) -> (r: Option<(usize, Fraction)>)
    requires
        forall|i: int| 0 <= i < bids@.len() ==> is_small(#[trigger] bids@[i]),
    ensures
        r is None <==> bids@.len() == 0,
        r is Some ==> {
            let (w, b) = r->Some_0;
            &&& w < bids@.len()
            &&& b == bids@[w as int]
            &&& forall|i: int| 0 <= i < bids@.len() ==> ratio_le(#[trigger] bids@[i].ratio(), b.ratio())
            &&& forall|i: int| w < i < bids@.len() ==> !ratio_le(b.ratio(), #[trigger] bids@[i].ratio())
        },
{
    if bids.len() == 0 {
        return None;
    }
    let mut best: usize = 0;
    let mut i: usize = 1;
    while i < bids.len()
        invariant
            forall|t: int| 0 <= t < bids@.len() ==> is_small(#[trigger] bids@[t]),
            0 < i <= bids@.len(),
            best < i,
            forall|t: int| 0 <= t < i ==> ratio_le(#[trigger] bids@[t].ratio(), bids@[best as int].ratio()),
            forall|t: int| best < t < i ==> !ratio_le(bids@[best as int].ratio(), #[trigger] bids@[t].ratio()),
        decreases bids@.len() - i,
    {
        let a = bids[i];
        let b = bids[best];
        proof {
            let m = 0x1_0000_0000_0000_0000int;
            crate::fraction::lemma_abs_mul_le(a.num as int, b.den as int, m, 0x1_0000_0000);
            crate::fraction::lemma_abs_mul_le(b.num as int, a.den as int, m, 0x1_0000_0000);
        }
        if b.num * a.den <= a.num * b.den {
            proof {
                lemma_ratio_le_transitive_all(bids@, i as int, best as int);
            }
            best = i;
        }
        i += 1;
    }
    Some((best, bids[best]))
}

/// After a new maximum at `i`, everything before it is still below it.
proof fn lemma_ratio_le_transitive_all(bids: Seq<Fraction>, i: int, best: int)
    requires
        0 <= best < i < bids.len(),
        forall|t: int| 0 <= t < bids.len() ==> is_small(#[trigger] bids[t]),
        forall|t: int| 0 <= t < i ==> ratio_le(#[trigger] bids[t].ratio(), bids[best].ratio()),
        ratio_le(bids[best].ratio(), bids[i].ratio()),
    ensures
        forall|t: int| 0 <= t <= i ==> ratio_le(#[trigger] bids[t].ratio(), bids[i].ratio()),
{
    assert forall|t: int| 0 <= t <= i implies ratio_le(#[trigger] bids[t].ratio(), bids[i].ratio()) by {
        if t < i {
            let x = bids[t].ratio();
            let y = bids[best].ratio();
            let z = bids[i].ratio();
            assert(x.0 * z.1 <= z.0 * x.1) by (nonlinear_arith)
                requires
                    x.0 * y.1 <= y.0 * x.1,
                    y.0 * z.1 <= z.0 * y.1,
                    x.1 > 0,
                    y.1 > 0,
                    z.1 > 0,
            ;
        } else {
            assert(bids[t].ratio().0 * bids[t].ratio().1 <= bids[t].ratio().0 * bids[t].ratio().1);
        }
    }
}

} // verus!
