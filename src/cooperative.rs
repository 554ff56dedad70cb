//! Cooperative games given by their characteristic function, and the Shapley
//! value.
//!
//! A coalition is a bit set of players: player `p` of `n` is bit `n - 1 - p`.
use vstd::prelude::*;

use itertools::Itertools;
use vstd::arithmetic::power2::pow2;

use crate::fraction::{lemma_abs_mul_le, Fraction};

verus! {

/// The largest number of players for which the Shapley value is computed.
pub const MAX_SHAPLEY_PLAYERS: u8 = 20;

/// `k!`.
pub open spec fn spec_factorial(k: nat) -> nat
    decreases k,
{
    if k == 0 {
        1
    } else {
        k * spec_factorial((k - 1) as nat)
    }
}

/// Whether bit `b` of `c` is set.
pub open spec fn has_bit(c: u64, b: u64) -> bool {
    c & (1u64 << b) != 0
}

/// The number of set bits of `c` among bits `0..upto`.
pub open spec fn bits_below(c: u64, upto: nat) -> nat
    decreases upto,
{
    if upto == 0 {
        0
    } else {
        bits_below(c, (upto - 1) as nat) + if has_bit(c, (upto - 1) as u64) {
            1nat
        } else {
            0nat
        }
    }
}

/// The number of members of a coalition.
pub open spec fn members(c: u64) -> nat {
    bits_below(c, 64)
}

/// A set of players.
#[derive(Clone, Copy, Debug, PartialEq, Eq, Hash, PartialOrd, Ord, Structural)]
pub struct Coalition(pub u64);

impl Coalition {
    /// The coalition without members.
    pub fn empty() -> (r: Coalition)
        ensures
            r.0 == 0,
    {
        Coalition(0)
    }

    /// The number of members.
    pub fn n_members(&self) -> (r: u8)
        ensures
            r == members(self.0),
    {
        let mut count: u8 = 0;
        let mut b: u64 = 0;
        while b < 64
            invariant
                b <= 64,
                count == bits_below(self.0, b as nat),
                count <= b,
            decreases 64 - b,
        {
            if self.0 & (1u64 << b) != 0 {
                count += 1;
            }
            b += 1;
        }
        count
    }

    /// Whether the two coalitions share a member.
    pub fn overlaps(&self, other: Coalition) -> (r: bool)
        ensures
            r == (self.0 & other.0 != 0),
    {
        (self.0 & other.0) != 0
    }

    /// The members of either coalition.
    pub fn union(self, other: Coalition) -> (r: Coalition)
        ensures
            r.0 == self.0 | other.0,
    {
        Coalition(self.0 | other.0)
    }

    /// The members of both coalitions.
    pub fn intersection(self, other: Coalition) -> (r: Coalition)
        ensures
            r.0 == self.0 & other.0,
    {
        Coalition(self.0 & other.0)
    }

    /// The members of `self` that are not in `other`.
    pub fn without(self, other: Coalition) -> (r: Coalition)
        ensures
            r.0 == self.0 & !other.0,
    {
        Coalition(self.0 & !other.0)
    }
}

impl Default for Coalition {
    fn default() -> (r: Coalition)
        ensures
            r.0 == 0,
    {
        Coalition::empty()
    }
}

/// `n!` for `n <= 20`.
pub fn factorial(n: u8) -> (r: u64)
    requires
        n <= MAX_SHAPLEY_PLAYERS,
    ensures
        r == spec_factorial(n as nat),
{
    let mut r: u64 = 1;
    let mut i: u8 = 0;
    proof {
        lemma_factorial_monotone(0, 20);
    }
    while i < n
        invariant
            i <= n <= MAX_SHAPLEY_PLAYERS,
            r == spec_factorial(i as nat),
            r <= spec_factorial(20),
        decreases n - i,
    {
        i += 1;
        proof {
            lemma_factorial_monotone((i - 1) as nat, 19);
            lemma_factorial_monotone(i as nat, 20);
            lemma_factorial_20();
            let f = spec_factorial((i - 1) as nat);
            assert(spec_factorial(i as nat) == i * f);
            assert(r * i == i * f) by (nonlinear_arith)
                requires
                    r == f,
            ;
        }
        r = r * i as u64;
    }
    r
}

proof fn lemma_factorial_20()
    ensures
        spec_factorial(20) == 2432902008176640000,
{
    assert(spec_factorial(0) == 1);
    assert(spec_factorial(1) == 1);
    assert(spec_factorial(2) == 2);
    assert(spec_factorial(3) == 6);
    assert(spec_factorial(4) == 24);
    assert(spec_factorial(5) == 120);
    assert(spec_factorial(6) == 720);
    assert(spec_factorial(7) == 5040);
    assert(spec_factorial(8) == 40320);
    assert(spec_factorial(9) == 362880);
    assert(spec_factorial(10) == 3628800);
    assert(spec_factorial(11) == 39916800);
    assert(spec_factorial(12) == 479001600);
    assert(spec_factorial(13) == 6227020800);
    assert(spec_factorial(14) == 87178291200);
    assert(spec_factorial(15) == 1307674368000);
    assert(spec_factorial(16) == 20922789888000);
    assert(spec_factorial(17) == 355687428096000);
    assert(spec_factorial(18) == 6402373705728000);
    assert(spec_factorial(19) == 121645100408832000);
    assert(spec_factorial(20) == 2432902008176640000);
}

proof fn lemma_factorial_monotone(a: nat, b: nat)
    requires
        a <= b,
    ensures
        1 <= spec_factorial(a) <= spec_factorial(b),
    decreases b,
{
    if a < b {
        lemma_factorial_monotone(a, (b - 1) as nat);
        assert(spec_factorial((b - 1) as nat) <= b * spec_factorial((b - 1) as nat)) by (nonlinear_arith)
            requires
                b >= 1,
                spec_factorial((b - 1) as nat) >= 1,
        ;
    } else if a > 0 {
        lemma_factorial_monotone((a - 1) as nat, (a - 1) as nat);
        assert(a * spec_factorial((a - 1) as nat) >= 1) by (nonlinear_arith)
            requires
                a >= 1,
                spec_factorial((a - 1) as nat) >= 1,
        ;
    }
}

proof fn lemma_factorial_product(a: nat, b: nat)
    ensures
        spec_factorial(a) * spec_factorial(b) <= spec_factorial(a + b),
    decreases b,
{
    if b > 0 {
        lemma_factorial_product(a, (b - 1) as nat);
        lemma_factorial_monotone(0, a);
        lemma_factorial_monotone(0, (b - 1) as nat);
        let fa = spec_factorial(a);
        let fb = spec_factorial((b - 1) as nat);
        let fab = spec_factorial((a + b - 1) as nat);
        assert(fa * (b * fb) <= (a + b) * fab) by (nonlinear_arith)
            requires
                fa * fb <= fab,
                fa >= 0,
                fb >= 0,
                b >= 1,
        ;
        assert(spec_factorial(a + b) == (a + b) * fab);
        assert(spec_factorial(b) == b * fb);
        assert(spec_factorial(a) * spec_factorial(b) == fa * (b * fb));
    } else {
        assert(spec_factorial(0) == 1);
        assert(a + b == a);
    }
}

/// A cooperative game of `n` players: entry `c` of the characteristic
/// function is the worth of coalition `c`, for all `2^n` coalitions.
pub struct CooperativeGame {
    values: Vec<u8>,
    players: u8,
}

/// A length that the characteristic function of `n >= 1` players has.
pub open spec fn is_game_len(len: nat) -> bool {
    exists|n: nat| 1 <= n < 64 && #[trigger] pow2(n) == len
}

/// The single bit of player `p` among `n` players.
pub open spec fn mask_of(n: int, p: int) -> u64 {
    1u64 << ((n - 1 - p) as u64)
}

/// Every two disjoint coalitions together are worth at least as much as
/// apart.
pub open spec fn is_super_additive_spec(vals: Seq<int>) -> bool {
    forall|s: u64, t: u64|
        s < vals.len() && t < vals.len() ==> #[trigger] super_additive_at(vals, s, t)
}

/// Coalitions `s` and `t`, if disjoint, are worth together at least as much
/// as apart.
pub open spec fn super_additive_at(vals: Seq<int>, s: u64, t: u64) -> bool {
    s & t == 0 ==> vals[(s | t) as int] >= vals[s as int] + vals[t as int]
}

/// `v(s | t) + v(s & t) >= v(s) + v(t)`.
pub open spec fn convex_at(vals: Seq<int>, s: u64, t: u64) -> bool {
    vals[(s | t) as int] + vals[(s & t) as int] >= vals[s as int] + vals[t as int]
}

/// `v(S | T) + v(S & T) >= v(S) + v(T)` for all coalitions.
pub open spec fn is_convex_spec(vals: Seq<int>) -> bool {
    forall|s: u64, t: u64| s < vals.len() && t < vals.len() ==> #[trigger] convex_at(vals, s, t)
}

/// Shapley's weight of a coalition of `s` members among `n` players, times `n!`.
pub open spec fn shapley_weight(n: nat, s: nat) -> nat {
    spec_factorial((s - 1) as nat) * spec_factorial((n - s) as nat)
}

/// `n!` times the Shapley value of the player with bit `mask`, summed over
/// the coalitions `0..upto`.
pub open spec fn shapley_sum(vals: Seq<int>, n: nat, mask: u64, upto: nat) -> int
    decreases upto,
{
    if upto == 0 {
        0
    } else {
        let c = (upto - 1) as u64;
        shapley_sum(vals, n, mask, (upto - 1) as nat) + if c & mask != 0 {
            shapley_weight(n, members(c)) * (vals[c as int] - vals[(c & !mask) as int])
        } else {
            0
        }
    }
}

/// Relies on itertools' `cartesian_product`: all pairs of `0..n`, the first
/// component varying slowest.
#[verifier::external_body]
fn index_pairs(n: usize) -> (r: Vec<(usize, usize)>)
    ensures
        r@.len() == n * n,
        forall|i: int| 0 <= i < n * n ==> #[trigger] r@[i] == ((i / n as int) as usize, (i % n as int) as usize),
{
    (0..n).cartesian_product(0..n).collect()
}

proof fn lemma_bits_below_le(c: u64, upto: nat)
    ensures
        bits_below(c, upto) <= upto,
    decreases upto,
{
    if upto > 0 {
        lemma_bits_below_le(c, (upto - 1) as nat);
    }
}

proof fn lemma_bits_below_has_bit(c: u64, b: u64, upto: nat)
    requires
        b < upto,
        has_bit(c, b),
    ensures
        bits_below(c, upto) >= 1,
    decreases upto,
{
    if b < upto - 1 {
        lemma_bits_below_has_bit(c, b, (upto - 1) as nat);
    }
}

proof fn lemma_bits_below_high_zero(c: u64, n: u64, upto: nat)
    requires
        n <= upto <= 64,
        n < 64,
        c < (1u64 << n),
    ensures
        bits_below(c, upto) == bits_below(c, n as nat),
    decreases upto,
{
    if upto > n {
        lemma_bits_below_high_zero(c, n, (upto - 1) as nat);
        let k = (upto - 1) as u64;
        assert(c & (1u64 << k) == 0) by (bit_vector)
            requires
                c < (1u64 << n),
                n <= k,
                k < 64,
        ;
    }
}

impl CooperativeGame {
    /// The worths of all coalitions, in coalition order.
    pub closed spec fn values(&self) -> Seq<int> {
        self.values@.map_values(|v: u8| v as int)
    }

    /// The number of players.
    pub closed spec fn players(&self) -> nat {
        self.players as nat
    }

    /// The game's invariant.
    pub closed spec fn wf(&self) -> bool {
        &&& 1 <= self.players < 64
        &&& self.values@.len() == pow2(self.players as nat)
    }

    /// The game with the given characteristic function, whose length must be
    /// `2^n` for some `n >= 1`; else the function is handed back.
    pub fn new(characteristic_function: Vec<u8>) -> (r: Result<CooperativeGame, Vec<u8>>)
        ensures
            r is Ok <==> is_game_len(characteristic_function@.len()),
            r is Ok ==> {
                let g = r->Ok_0;
                &&& g.wf()
                &&& g.values() == characteristic_function@.map_values(|v: u8| v as int)
                &&& pow2(g.players()) == characteristic_function@.len()
            },
            r is Err ==> r->Err_0@ == characteristic_function@,
    {
        let len = characteristic_function.len();
        let mut n: u64 = 1;
        while n < 64
            invariant
                1 <= n <= 64,
                len == characteristic_function@.len(),
                forall|k: nat| 1 <= k < n ==> #[trigger] pow2(k) != len,
            decreases 64 - n,
        {
            proof {
                vstd::bits::lemma_u64_pow2_no_overflow(n as nat);
                vstd::bits::lemma_u64_shl_is_mul(1, n);
            }
            if (1u64 << n) as u128 == len as u128 {
                return Ok(CooperativeGame { values: characteristic_function, players: n as u8 });
            }
            n += 1;
        }
        proof {
            assert forall|k: nat| 1 <= k < 64 implies #[trigger] pow2(k) != len by {}
        }
        Err(characteristic_function)
    }

    /// The number of players.
    pub fn player_count(&self) -> (r: u8)
        requires
            self.wf(),
        ensures
            r == self.players(),
            1 <= r < 64,
    {
        self.players
    }

    /// All coalitions, in order.
    pub fn coalitions(&self) -> (r: Vec<Coalition>)
        requires
            self.wf(),
        ensures
            r@.len() == self.values().len(),
            forall|c: int| 0 <= c < r@.len() ==> #[trigger] r@[c].0 == c,
    {
        let len = self.values.len();
        let mut out: Vec<Coalition> = Vec::new();
        let mut c: usize = 0;
        while c < len
            invariant
                c <= len,
                out@.len() == c,
                forall|t: int| 0 <= t < c ==> #[trigger] out@[t].0 == t,
            decreases len - c,
        {
            out.push(Coalition(c as u64));
            c += 1;
        }
        out
    }

    /// The worth of a coalition.
    pub fn v(&self, coalition: Coalition) -> (r: u8)
        requires
            self.wf(),
            coalition.0 < self.values().len(),
        ensures
            r == self.values()[coalition.0 as int],
    {
        let _len = self.values.len();
        assert(self.values().len() == self.values@.len());
        let i = coalition.0 as usize;
        assert(i == coalition.0);
        self.values[i]
    }

    /// The worth of a coalition, if it is one of this game's.
    pub fn try_v(&self, coalition: Coalition) -> (r: Option<u8>)
        requires
            self.wf(),
        ensures
            r is Some <==> coalition.0 < self.values().len(),
            r is Some ==> r->Some_0 == self.values()[coalition.0 as int],
    {
        assert(self.values().len() == self.values@.len());
        if coalition.0 < self.values.len() as u64 {
            let i = coalition.0 as usize;
            assert(i == coalition.0);
            Some(self.values[i])
        } else {
            None
        }
    }

    /// The worth of the grand coalition.
    pub fn v_i(&self) -> (r: u8)
        requires
            self.wf(),
        ensures
            r == self.values()[self.values().len() - 1],
    {
        proof {
            vstd::arithmetic::power2::lemma_pow2_pos(self.players as nat);
        }
        self.values[self.values.len() - 1]
    }

    /// The coalition of player `player` alone.
    pub fn player_mask(&self, player: u8) -> (r: u64)
        requires
            self.wf(),
            player < self.players(),
        ensures
            r == mask_of(self.players() as int, player as int),
    {
        1u64 << (self.players - 1 - player) as u64
    }

    /// The one-player coalitions, by player.
    pub fn singular_coalitions(&self) -> (r: Vec<Coalition>)
        requires
            self.wf(),
        ensures
            r@.len() == self.players(),
            forall|p: int| 0 <= p < r@.len() ==> #[trigger] r@[p].0 == mask_of(self.players() as int, p),
    {
        let mut out: Vec<Coalition> = Vec::new();
        let mut p: u8 = 0;
        while p < self.players
            invariant
                self.wf(),
                p <= self.players,
                out@.len() == p,
                forall|t: int| 0 <= t < p ==> #[trigger] out@[t].0 == mask_of(self.players() as int, t),
            decreases self.players - p,
        {
            out.push(Coalition(self.player_mask(p)));
            p += 1;
        }
        out
    }

    /// The coalitions that player `player` belongs to, in order.
    pub fn x_i(&self, player: u8) -> (r: Vec<Coalition>)
        requires
            self.wf(),
            player < self.players(),
        ensures
            forall|t: int|
                0 <= t < r@.len() ==> #[trigger] r@[t].0 < self.values().len() && r@[t].0 & mask_of(
                    self.players() as int,
                    player as int,
                ) != 0,
            forall|t: int, u: int| 0 <= t < u < r@.len() ==> r@[t].0 < r@[u].0,
            forall|c: u64|
                c < self.values().len() && c & mask_of(self.players() as int, player as int) != 0
                    ==> exists|t: int| 0 <= t < r@.len() && #[trigger] r@[t].0 == c,
    {
        let mask = self.player_mask(player);
        let len = self.values.len();
        proof {
            vstd::bits::lemma_u64_pow2_no_overflow(self.players as nat);
        }
        let mut out: Vec<Coalition> = Vec::new();
        let mut c: u64 = 0;
        while c < len as u64
            invariant
                self.wf(),
                len == self.values().len(),
                len < 0x1_0000_0000_0000_0000,
                mask == mask_of(self.players() as int, player as int),
                c <= len,
                forall|t: int| 0 <= t < out@.len() ==> #[trigger] out@[t].0 < c && out@[t].0 & mask != 0,
                forall|t: int, u: int| 0 <= t < u < out@.len() ==> out@[t].0 < out@[u].0,
                forall|d: u64|
                    d < c && d & mask != 0 ==> exists|t: int| 0 <= t < out@.len() && #[trigger] out@[t].0 == d,
            decreases len - c,
        {
            let ghost before = out@;
            if c & mask != 0 {
                out.push(Coalition(c));
                proof {
                    assert forall|d: u64| d < c + 1 && d & mask != 0 implies exists|t: int|
                        0 <= t < out@.len() && #[trigger] out@[t].0 == d by {
                        if d == c {
                            assert(out@[out@.len() - 1].0 == c);
                        } else {
                            let t = choose|t: int| 0 <= t < before.len() && #[trigger] before[t].0 == d;
                            assert(out@[t] == before[t]);
                        }
                    }
                }
            } else {
                proof {
                    assert forall|d: u64| d < c + 1 && d & mask != 0 implies exists|t: int|
                        0 <= t < out@.len() && #[trigger] out@[t].0 == d by {
                        if d == c {
                        } else {
                            let t = choose|t: int| 0 <= t < before.len() && #[trigger] before[t].0 == d;
                        }
                    }
                }
            }
            c += 1;
        }
        out
    }

    /// The number of coalitions, `2^n`, as a shift.
    proof fn lemma_len_is_shift(&self)
        requires
            self.wf(),
        ensures
            self.values@.len() == (1u64 << self.players as u64),
            self.values@.len() < 0x1_0000_0000_0000_0000,
    {
        vstd::bits::lemma_u64_pow2_no_overflow(self.players as nat);
        vstd::bits::lemma_u64_shl_is_mul(1, self.players as u64);
    }

    /// Whether every two disjoint coalitions together are worth at least as
    /// much as apart.
    pub fn is_super_additive(&self) -> (r: bool)
        requires
            self.wf(),
            self.values().len() <= 0x1_0000_0000,
        ensures
            r == is_super_additive_spec(self.values()),
    {
        let ghost vals = self.values();
        let len = self.values.len();
        let n = self.players as u64;
        proof {
            self.lemma_len_is_shift();
        }
        let pairs = index_pairs(len);
        let mut i: usize = 0;
        while i < pairs.len()
            invariant
                self.wf(),
                vals == self.values(),
                len == vals.len(),
                len == (1u64 << n),
                n == self.players,
                n < 64,
                len <= 0x1_0000_0000,
                pairs@.len() == len * len,
                forall|q: int| 0 <= q < len * len ==> #[trigger] pairs@[q] == ((q / len as int) as usize, (q % len as int) as usize),
                i <= pairs@.len(),
                forall|s: u64, t: u64|
                    s < len && t < len && s * len + t < i ==> #[trigger] super_additive_at(vals, s, t),
            decreases pairs@.len() - i,
        {
            let (s, t) = pairs[i];
            proof {
                vstd::arithmetic::div_mod::lemma_fundamental_div_mod(i as int, len as int);
                vstd::arithmetic::div_mod::lemma_mod_pos_bound(i as int, len as int);
                vstd::arithmetic::div_mod::lemma_div_pos_is_pos(i as int, len as int);
                assert(i / len < len) by (nonlinear_arith)
                    requires
                        i == len * (i / len) + i % len,
                        0 <= i % len,
                        i < len * len,
                        len > 0,
                ;
            }
            let s = s as u64;
            let t = t as u64;
            if s & t == 0 {
                let u = s | t;
                proof {
                    assert(u < (1u64 << n)) by (bit_vector)
                        requires
                            s < (1u64 << n),
                            t < (1u64 << n),
                            u == s | t,
                            n < 64,
                    ;
                }
                let _len = self.values.len();
                let total = self.values[u as usize] as u16;
                let apart = self.values[s as usize] as u16 + self.values[t as usize] as u16;
                if total < apart {
                    proof {
                        assert(!super_additive_at(vals, s, t));
                    }
                    return false;
                }
            }
            proof {
                assert forall|a: u64, b: u64|
                    a < len && b < len && a * len + b < i + 1 implies #[trigger] super_additive_at(vals, a, b) by {
                    if a * len + b == i {
                        vstd::arithmetic::div_mod::lemma_fundamental_div_mod_converse(i as int, len as int, a as int, b as int);
                    }
                }
            }
            i += 1;
        }
        proof {
            assert forall|a: u64, b: u64|
                a < len && b < len implies #[trigger] super_additive_at(vals, a, b) by {
                assert(a * len + b < len * len) by (nonlinear_arith)
                    requires
                        a < len,
                        b < len,
                ;
            }
        }
        true
    }

    /// Whether `v(S | T) + v(S & T) >= v(S) + v(T)` for all coalitions.
    pub fn is_convex(&self) -> (r: bool)
        requires
            self.wf(),
            self.values().len() <= 0x1_0000_0000,
        ensures
            r == is_convex_spec(self.values()),
    {
        let ghost vals = self.values();
        let len = self.values.len();
        let n = self.players as u64;
        proof {
            self.lemma_len_is_shift();
        }
        let pairs = index_pairs(len);
        let mut i: usize = 0;
        while i < pairs.len()
            invariant
                self.wf(),
                vals == self.values(),
                len == vals.len(),
                len == (1u64 << n),
                n == self.players,
                n < 64,
                len <= 0x1_0000_0000,
                pairs@.len() == len * len,
                forall|q: int| 0 <= q < len * len ==> #[trigger] pairs@[q] == ((q / len as int) as usize, (q % len as int) as usize),
                i <= pairs@.len(),
                forall|s: u64, t: u64|
                    s < len && t < len && s * len + t < i ==> #[trigger] convex_at(vals, s, t),
            decreases pairs@.len() - i,
        {
            let (s, t) = pairs[i];
            proof {
                vstd::arithmetic::div_mod::lemma_fundamental_div_mod(i as int, len as int);
                vstd::arithmetic::div_mod::lemma_mod_pos_bound(i as int, len as int);
                vstd::arithmetic::div_mod::lemma_div_pos_is_pos(i as int, len as int);
                assert(i / len < len) by (nonlinear_arith)
                    requires
                        i == len * (i / len) + i % len,
                        0 <= i % len,
                        i < len * len,
                        len > 0,
                ;
            }
            let s = s as u64;
            let t = t as u64;
            let u = s | t;
            let w = s & t;
            proof {
                assert(u < (1u64 << n) && w <= s) by (bit_vector)
                    requires
                        s < (1u64 << n),
                        t < (1u64 << n),
                        u == s | t,
                        w == s & t,
                        n < 64,
                ;
            }
            let _len = self.values.len();
            let together = self.values[u as usize] as u16 + self.values[w as usize] as u16;
            let apart = self.values[s as usize] as u16 + self.values[t as usize] as u16;
            if together < apart {
                proof {
                    assert(!convex_at(vals, s, t));
                }
                return false;
            }
            proof {
                assert forall|a: u64, b: u64|
                    a < len && b < len && a * len + b < i + 1 implies #[trigger] convex_at(vals, a, b) by {
                    if a * len + b == i {
                        vstd::arithmetic::div_mod::lemma_fundamental_div_mod_converse(i as int, len as int, a as int, b as int);
                    }
                }
            }
            i += 1;
        }
        proof {
            assert forall|a: u64, b: u64| a < len && b < len implies #[trigger] convex_at(vals, a, b) by {
                assert(a * len + b < len * len) by (nonlinear_arith)
                    requires
                        a < len,
                        b < len,
                ;
            }
        }
        true
    }

    /// The Shapley value of each player, as exact fractions over `n!`.
    pub fn x(&self) -> (r: Vec<Fraction>)
        requires
            self.wf(),
            self.players() <= MAX_SHAPLEY_PLAYERS,
        ensures
            r@.len() == self.players(),
            forall|p: int|
                0 <= p < r@.len() ==> #[trigger] r@[p].ratio() == (
                    shapley_sum(
                        self.values(),
                        self.players(),
                        mask_of(self.players() as int, p),
                        self.values().len(),
                    ),
                    spec_factorial(self.players()) as int,
                ),
    {
        let n = self.players;
        let n_factorial = factorial(n);
        let mut out: Vec<Fraction> = Vec::new();
        let mut p: u8 = 0;
        while p < n
            invariant
                self.wf(),
                n == self.players,
                n <= MAX_SHAPLEY_PLAYERS,
                n_factorial == spec_factorial(n as nat),
                p <= n,
                out@.len() == p,
                forall|q: int|
                    0 <= q < p ==> #[trigger] out@[q].ratio() == (
                        shapley_sum(
                            self.values(),
                            self.players(),
                            mask_of(self.players() as int, q),
                            self.values().len(),
                        ),
                        spec_factorial(self.players()) as int,
                    ),
            decreases n - p,
        {
            let num = self.shapley_numerator(p);
            out.push(Fraction { num, den: n_factorial as i128 });
            p += 1;
        }
        out
    }

    /// Shapley's weighted marginal contribution of player `player` to the
    /// coalition `c`, times `n!`.
    fn shapley_term(&self, c: u64, player: u8) -> (r: i128)
        requires
            self.wf(),
            self.players() <= MAX_SHAPLEY_PLAYERS,
            player < self.players(),
            c < self.values().len(),
            c & mask_of(self.players() as int, player as int) != 0,
        ensures
            r == shapley_weight(self.players(), members(c)) * (self.values()[c as int]
                - self.values()[(c & !mask_of(self.players() as int, player as int)) as int]),
            -0x100_0000_0000_0000_0000 <= r <= 0x100_0000_0000_0000_0000,
    {
        let ghost vals = self.values();
        let n = self.players;
        let mask = self.player_mask(player);
        let s = Coalition(c).n_members();
        let rest = c & !mask;
        let b = (n - 1 - player) as u64;
        proof {
            self.lemma_len_is_shift();
            lemma_factorial_20();
            assert(mask == 1u64 << b);
            assert(has_bit(c, b));
            lemma_bits_below_has_bit(c, b, 64);
            lemma_bits_below_high_zero(c, n as u64, 64);
            lemma_bits_below_le(c, n as nat);
            assert(rest <= c) by (bit_vector)
                requires
                    rest == c & !mask,
            ;
            lemma_factorial_product((s - 1) as nat, (n - s) as nat);
            lemma_factorial_monotone((n - 1) as nat, 20);
            lemma_factorial_monotone((s - 1) as nat, 20);
            lemma_factorial_monotone((n - s) as nat, 20);
        }
        let fa = factorial(s - 1);
        let fb = factorial(n - s);
        let weight = fa as i128 * fb as i128;
        let _len = self.values.len();
        let diff = self.values[c as usize] as i128 - self.values[rest as usize] as i128;
        proof {
            assert(vals[c as int] == self.values@[c as int]);
            assert(vals[rest as int] == self.values@[rest as int]);
            assert(weight <= 2432902008176640000);
            assert(weight >= 0) by (nonlinear_arith)
                requires
                    weight == fa * fb,
                    fa >= 0,
                    fb >= 0,
            ;
            lemma_abs_mul_le(weight as int, diff as int, 2432902008176640000, 255);
        }
        weight * diff
    }

    /// `n!` times the Shapley value of player `player`.
    fn shapley_numerator(&self, player: u8) -> (r: i128)
        requires
            self.wf(),
            self.players() <= MAX_SHAPLEY_PLAYERS,
            player < self.players(),
        ensures
            r == shapley_sum(
                self.values(),
                self.players(),
                mask_of(self.players() as int, player as int),
                self.values().len(),
            ),
    {
        let ghost vals = self.values();
        let n = self.players;
        let mask = self.player_mask(player);
        let len = self.values.len();
        proof {
            self.lemma_len_is_shift();
            lemma_factorial_20();
            lemma_factorial_monotone(0, 20);
            let nn = n as u64;
            assert((1u64 << nn) <= 0x10_0000) by (bit_vector)
                requires
                    nn <= 20,
            ;
        }
        let mut acc: i128 = 0;
        let mut c: usize = 0;
        while c < len
            invariant
                self.wf(),
                vals == self.values(),
                len == vals.len(),
                len == (1u64 << n as u64),
                n == self.players,
                1 <= n <= MAX_SHAPLEY_PLAYERS,
                player < n,
                mask == mask_of(n as int, player as int),
                c <= len,
                len <= 0x10_0000,
                acc == shapley_sum(vals, n as nat, mask, c as nat),
                -(c as int) * 0x100_0000_0000_0000_0000 <= acc <= (c as int) * 0x100_0000_0000_0000_0000,
                spec_factorial(20) == 2432902008176640000,
            decreases len - c,
        {
            let cc = c as u64;
            if cc & mask != 0 {
                let term = self.shapley_term(cc, player);
                acc = acc + term;
            }
            proof {
                assert((c + 1) as u64 - 1 == cc);
            }
            c += 1;
        }
        acc
    }
}

} // verus!
