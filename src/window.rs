//! The sliding window of recent changes that decides when the refinement of
//! a continuous game has settled.
use std::collections::VecDeque;
use vstd::prelude::*;

use crate::brown_robinson::seq_sum;

verus! {

/// The window after `d` arrives: the oldest entry leaves once `capacity`
/// entries are held.
pub open spec fn window_push(capacity: int, w: Seq<int>, d: int) -> Seq<int> {
    if w.len() >= capacity {
        w.drop_first().push(d)
    } else {
        w.push(d)
    }
}

/// The window after the entries `ds` arrived, in order, into an empty one.
pub open spec fn window_after(capacity: int, ds: Seq<int>) -> Seq<int>
    decreases ds.len(),
{
    if ds.len() == 0 {
        Seq::empty()
    } else {
        window_push(capacity, window_after(capacity, ds.drop_last()), ds.last())
    }
}

/// A full window whose entries sum to at most `accuracy`.
pub open spec fn is_settled(capacity: int, w: Seq<int>, accuracy: int) -> bool {
    w.len() == capacity && seq_sum(w) <= accuracy
}

/// The latest `min(capacity, ds.len())` entries of `ds`.
pub open spec fn latest(capacity: int, ds: Seq<int>) -> Seq<int> {
    if ds.len() <= capacity {
        ds
    } else {
        ds.subrange(ds.len() - capacity, ds.len() as int)
    }
}

/// A window fed with `ds` holds exactly the latest `capacity` of them; so it
/// is settled exactly when at least `capacity` entries have arrived and the
/// latest `capacity` of them sum to at most `accuracy`, and at no earlier
/// point.
pub proof fn lemma_window_holds_latest(capacity: int, ds: Seq<int>, accuracy: int)
    requires
        capacity > 0,
    ensures
        window_after(capacity, ds) == latest(capacity, ds),
        is_settled(capacity, window_after(capacity, ds), accuracy) <==> (ds.len() >= capacity
            && seq_sum(ds.subrange(ds.len() - capacity, ds.len() as int)) <= accuracy),
    decreases ds.len(),
{
    if ds.len() > 0 {
        let t = ds.drop_last();
        lemma_window_holds_latest(capacity, t, accuracy);
        let w = latest(capacity, t);
        if t.len() < capacity {
            assert(window_after(capacity, ds) =~= latest(capacity, ds));
        } else if t.len() == capacity {
            assert(window_after(capacity, ds) =~= latest(capacity, ds));
        } else {
            assert(window_after(capacity, ds) =~= latest(capacity, ds));
        }
    }
    if ds.len() >= capacity {
        assert(latest(capacity, ds) =~= ds.subrange(ds.len() - capacity, ds.len() as int));
    }
}

proof fn lemma_seq_sum_push(s: Seq<int>, d: int)
    ensures
        seq_sum(s.push(d)) == seq_sum(s) + d,
{
    assert(s.push(d).drop_last() =~= s);
}

proof fn lemma_seq_sum_drop_first(s: Seq<int>)
    requires
        s.len() > 0,
    ensures
        seq_sum(s) == s[0] + seq_sum(s.drop_first()),
    decreases s.len(),
{
    if s.len() > 1 {
        lemma_seq_sum_drop_first(s.drop_last());
        assert(s.drop_last().drop_first() =~= s.drop_first().drop_last());
    } else {
        assert(s.drop_first() =~= Seq::<int>::empty());
        assert(s.drop_last() =~= Seq::<int>::empty());
    }
}

proof fn lemma_seq_sum_bounds(s: Seq<int>, hi: int)
    requires
        forall|i: int| 0 <= i < s.len() ==> 0 <= #[trigger] s[i] <= hi,
    ensures
        0 <= seq_sum(s) <= s.len() * hi,
    decreases s.len(),
{
    if s.len() > 0 {
        lemma_seq_sum_bounds(s.drop_last(), hi);
        assert(s.len() * hi == (s.len() - 1) * hi + hi) by (nonlinear_arith);
    }
}

/// A window of at most `capacity` recent non-negative changes with their sum.
pub struct DeltaWindow {
    capacity: usize,
    deltas: VecDeque<u64>,
    sum: u128,
}

impl DeltaWindow {
    /// The entries held, oldest first.
    pub closed spec fn entries(&self) -> Seq<int> {
        self.deltas@.map_values(|d: u64| d as int)
    }

    /// How many entries the window holds at most.
    pub closed spec fn spec_capacity(&self) -> int {
        self.capacity as int
    }

    /// The window's invariant.
    pub closed spec fn wf(&self) -> bool {
        &&& 0 < self.capacity
        &&& self.deltas@.len() <= self.capacity
        &&& self.sum == seq_sum(self.entries())
    }

    /// An empty window holding at most `capacity` entries.
    pub fn new(capacity: usize) -> (r: DeltaWindow)
        requires
            0 < capacity,
        ensures
            r.wf(),
            r.spec_capacity() == capacity,
            r.entries() == Seq::<int>::empty(),
    {
        let r = DeltaWindow { capacity, deltas: VecDeque::new(), sum: 0 };
        assert(r.entries() =~= Seq::<int>::empty());
        r
    }

    /// The number of entries held.
    pub fn len(&self) -> (r: usize)
        requires
            self.wf(),
        ensures
            r == self.entries().len(),
    {
        self.deltas.len()
    }

    /// The sum of the entries held.
    pub fn sum(&self) -> (r: u128)
        requires
            self.wf(),
        ensures
            r == seq_sum(self.entries()),
    {
        self.sum
    }

    /// Adds the newest entry, dropping the oldest one if the window is full.
    pub fn push(&mut self, delta: u64)
        requires
            old(self).wf(),
        ensures
            final(self).wf(),
            final(self).spec_capacity() == old(self).spec_capacity(),
            final(self).entries() == window_push(
                old(self).spec_capacity(),
                old(self).entries(),
                delta as int,
            ),
    {
        let ghost w = self.entries();
        if self.deltas.len() >= self.capacity {
            let front = self.deltas.pop_front();
            proof {
                lemma_seq_sum_drop_first(w);
                assert(self.entries() =~= w.drop_first());
                lemma_seq_sum_bounds(self.entries(), u64::MAX as int);
            }
            match front {
                Some(f) => {
                    self.sum = self.sum - f as u128;
                },
                None => {},
            }
        }
        let ghost before = self.entries();
        proof {
            lemma_seq_sum_bounds(before, u64::MAX as int);
            assert(before.len() <= usize::MAX);
            assert(before.len() * u64::MAX <= u64::MAX * u64::MAX) by (nonlinear_arith)
                requires
                    before.len() <= u64::MAX,
            ;
        }
        self.deltas.push_back(delta);
        self.sum = self.sum + delta as u128;
        proof {
            assert(self.entries() =~= before.push(delta as int));
            lemma_seq_sum_push(before, delta as int);
        }
    }

    /// Whether the window is full and its entries sum to at most `accuracy`.
    pub fn is_settled(&self, accuracy: u64) -> (r: bool)
        requires
            self.wf(),
        ensures
            r == is_settled(self.spec_capacity(), self.entries(), accuracy as int),
    {
        self.deltas.len() == self.capacity && self.sum <= accuracy as u128
    }
}

} // verus!
