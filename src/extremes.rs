//! Minimum and maximum of a non-empty sequence, as spec functions with the
//! lemmas that characterise them.
use vstd::prelude::*;

verus! {

/// The values of a sequence of machine integers, as mathematical integers.
pub open spec fn as_ints(s: Seq<i64>) -> Seq<int> {
    s.map_values(|x: i64| x as int)
}

/// The values of a sequence of wide machine integers, as mathematical integers.
pub open spec fn wide_ints(s: Seq<i128>) -> Seq<int> {
    s.map_values(|x: i128| x as int)
}

/// The smallest element of a non-empty sequence.
pub open spec fn seq_min(s: Seq<int>) -> int
    recommends
        s.len() > 0,
    decreases s.len(),
{
    if s.len() <= 1 {
        s[0]
    } else {
        let m = seq_min(s.drop_last());
        if s.last() < m {
            s.last()
        } else {
            m
        }
    }
}

/// The largest element of a non-empty sequence.
pub open spec fn seq_max(s: Seq<int>) -> int
    recommends
        s.len() > 0,
    decreases s.len(),
{
    if s.len() <= 1 {
        s[0]
    } else {
        let m = seq_max(s.drop_last());
        if s.last() > m {
            s.last()
        } else {
            m
        }
    }
}

/// `seq_min` is a lower bound of the sequence and one of its elements.
pub proof fn lemma_seq_min(s: Seq<int>)
    requires
        s.len() > 0,
    ensures
        forall|i: int| 0 <= i < s.len() ==> seq_min(s) <= s[i],
        exists|i: int| 0 <= i < s.len() && s[i] == seq_min(s),
    decreases s.len(),
{
    if s.len() > 1 {
        let t = s.drop_last();
        lemma_seq_min(t);
        let k = choose|k: int| 0 <= k < t.len() && t[k] == seq_min(t);
        assert(s[k] == t[k]);
        assert forall|i: int| 0 <= i < s.len() implies seq_min(s) <= s[i] by {
            if i < s.len() - 1 {
                assert(s[i] == t[i]);
            }
        }
        if s.last() < seq_min(t) {
            assert(s[s.len() - 1] == seq_min(s));
        } else {
            assert(s[k] == seq_min(s));
        }
    } else {
        assert(s[0] == seq_min(s));
    }
}

/// `seq_max` is an upper bound of the sequence and one of its elements.
pub proof fn lemma_seq_max(s: Seq<int>)
    requires
        s.len() > 0,
    ensures
        forall|i: int| 0 <= i < s.len() ==> s[i] <= seq_max(s),
        exists|i: int| 0 <= i < s.len() && s[i] == seq_max(s),
    decreases s.len(),
{
    if s.len() > 1 {
        let t = s.drop_last();
        lemma_seq_max(t);
        let k = choose|k: int| 0 <= k < t.len() && t[k] == seq_max(t);
        assert(s[k] == t[k]);
        assert forall|i: int| 0 <= i < s.len() implies s[i] <= seq_max(s) by {
            if i < s.len() - 1 {
                assert(s[i] == t[i]);
            }
        }
        if s.last() > seq_max(t) {
            assert(s[s.len() - 1] == seq_max(s));
        } else {
            assert(s[k] == seq_max(s));
        }
    } else {
        assert(s[0] == seq_max(s));
    }
}

/// A value that bounds a sequence from below and occurs in it is its minimum.
pub proof fn lemma_is_seq_min(s: Seq<int>, v: int, k: int)
    requires
        0 <= k < s.len(),
        s[k] == v,
        forall|i: int| 0 <= i < s.len() ==> v <= s[i],
    ensures
        seq_min(s) == v,
{
    lemma_seq_min(s);
    let j = choose|j: int| 0 <= j < s.len() && s[j] == seq_min(s);
    assert(v <= s[j]);
    assert(seq_min(s) <= s[k]);
}

/// A value that bounds a sequence from above and occurs in it is its maximum.
pub proof fn lemma_is_seq_max(s: Seq<int>, v: int, k: int)
    requires
        0 <= k < s.len(),
        s[k] == v,
        forall|i: int| 0 <= i < s.len() ==> s[i] <= v,
    ensures
        seq_max(s) == v,
{
    lemma_seq_max(s);
    let j = choose|j: int| 0 <= j < s.len() && s[j] == seq_max(s);
    assert(s[j] <= v);
    assert(s[k] <= seq_max(s));
}

/// The values of a sequence of counters, as mathematical integers.
pub open spec fn count_ints(s: Seq<usize>) -> Seq<int> {
    s.map_values(|x: usize| x as int)
}

/// The largest element of a non-empty vector of wide integers.
pub fn max_wide(v: &Vec<i128>) -> (r: i128)
    requires
        v.len() > 0,
    ensures
        r as int == seq_max(wide_ints(v@)),
{
    let mut best: usize = 0;
    let mut i: usize = 1;
    while i < v.len()
        invariant
            0 < i <= v.len(),
            best < i,
            forall|k: int| 0 <= k < i ==> v@[k] <= v@[best as int],
        decreases v.len() - i,
    {
        if v[i] > v[best] {
            best = i;
        }
        i += 1;
    }
    proof {
        lemma_is_seq_max(wide_ints(v@), v@[best as int] as int, best as int);
    }
    v[best]
}

/// The smallest element of a non-empty vector of wide integers.
pub fn min_wide(v: &Vec<i128>) -> (r: i128)
    requires
        v.len() > 0,
    ensures
        r as int == seq_min(wide_ints(v@)),
{
    let mut best: usize = 0;
    let mut i: usize = 1;
    while i < v.len()
        invariant
            0 < i <= v.len(),
            best < i,
            forall|k: int| 0 <= k < i ==> v@[best as int] <= v@[k],
        decreases v.len() - i,
    {
        if v[i] < v[best] {
            best = i;
        }
        i += 1;
    }
    proof {
        lemma_is_seq_min(wide_ints(v@), v@[best as int] as int, best as int);
    }
    v[best]
}

/// The index and value of the first smallest element of `v`.
pub fn argmin_first(v: &Vec<i64>) -> (r: (usize, i64))
    requires
        v.len() > 0,
    ensures
        r.0 < v.len(),
        v@[r.0 as int] == r.1,
        r.1 as int == seq_min(as_ints(v@)),
        forall|k: int| 0 <= k < r.0 ==> r.1 < v@[k],
{
    let mut best: usize = 0;
    let mut i: usize = 1;
    while i < v.len()
        invariant
            0 < i <= v.len(),
            best < i,
            forall|k: int| 0 <= k < i ==> v@[best as int] <= v@[k],
            forall|k: int| 0 <= k < best ==> v@[best as int] < v@[k],
        decreases v.len() - i,
    {
        if v[i] < v[best] {
            best = i;
        }
        i += 1;
    }
    proof {
        lemma_is_seq_min(as_ints(v@), v@[best as int] as int, best as int);
    }
    (best, v[best])
}

/// The index and value of the first largest element of `v`.
pub fn argmax_first(v: &Vec<i64>) -> (r: (usize, i64))
    requires
        v.len() > 0,
    ensures
        r.0 < v.len(),
        v@[r.0 as int] == r.1,
        r.1 as int == seq_max(as_ints(v@)),
        forall|k: int| 0 <= k < r.0 ==> v@[k] < r.1,
{
    let mut best: usize = 0;
    let mut i: usize = 1;
    while i < v.len()
        invariant
            0 < i <= v.len(),
            best < i,
            forall|k: int| 0 <= k < i ==> v@[k] <= v@[best as int],
            forall|k: int| 0 <= k < best ==> v@[k] < v@[best as int],
        decreases v.len() - i,
    {
        if v[i] > v[best] {
            best = i;
        }
        i += 1;
    }
    proof {
        lemma_is_seq_max(as_ints(v@), v@[best as int] as int, best as int);
    }
    (best, v[best])
}

} // verus!
