//! Why hindsight is a benchmark: no way to cache one prefix costs less.
//!
//! A plan says, request by request, whether a prefix is paid for at the input
//! price or read from a cache, and over which requests a cache is held. The
//! ski-rental recursion finds the least any plan costs.
use vstd::prelude::*;

use crate::fixed::{Fixed, ONE};
use crate::number::Real;
use crate::plan::mtok_of;
use crate::sim::model::Case;
use crate::trie::NodeId;

verus! {

/// What a prefix costs: at the input price (also to write it), to read it from
/// a cache, and to store it up to each request, from some point in time on.
pub struct Tariff {
    pub input: int,
    pub read: int,
    pub stored: Seq<int>,
}

/// A plan for the first requests that share a prefix.
pub enum Schedule {
    /// No request.
    Start,
    /// One more request, paid at the input price.
    Miss { before: Box<Schedule> },
    /// `len` more requests, read from a cache written for the first of them and
    /// held until the last.
    Stay { before: Box<Schedule>, len: nat },
}

impl Schedule {
    /// How many requests a plan is for.
    pub open spec fn covers(self) -> nat
        decreases self,
    {
        match self {
            Schedule::Start => 0,
            Schedule::Miss { before } => before.covers() + 1,
            Schedule::Stay { before, len } => before.covers() + len,
        }
    }

    /// Whether every stay serves a request.
    pub open spec fn sound(self) -> bool
        decreases self,
    {
        match self {
            Schedule::Start => true,
            Schedule::Miss { before } => before.sound(),
            Schedule::Stay { before, len } => before.sound() && len >= 1,
        }
    }

    /// What a plan costs.
    pub open spec fn cost(self, t: Tariff) -> int
        decreases self,
    {
        match self {
            Schedule::Start => 0,
            Schedule::Miss { before } => before.cost(t) + t.input,
            Schedule::Stay { before, len } => {
                let first = before.covers() as int;
                before.cost(t) + t.input + t.read * len + t.stored[first + len - 1]
                    - t.stored[first]
            },
        }
    }
}

/// The smaller of two.
pub open spec fn lesser(a: int, b: int) -> int {
    if a <= b {
        a
    } else {
        b
    }
}

impl Tariff {
    /// What a stay that begins at the request `j` saves up front:
    /// `dp[j-1] - read*j - stored[j]`.
    pub open spec fn head(self, j: nat) -> int
        decreases j, 3int,
    {
        self.least(j) - self.read * j - self.stored[j as int]
    }

    /// The least of the first `n` heads, `n` at least one.
    pub open spec fn low(self, n: nat) -> int
        decreases n, 1int,
    {
        if n <= 1 {
            if n == 0 {
                0
            } else {
                self.head(0)
            }
        } else {
            lesser(self.low((n - 1) as nat), self.head((n - 1) as nat))
        }
    }

    /// The least that the first `n` requests cost.
    pub open spec fn least(self, n: nat) -> int
        decreases n, 2int,
    {
        if n == 0 {
            0
        } else {
            lesser(
                self.input + self.read * n + self.stored[n - 1] + self.low(n),
                self.least((n - 1) as nat) + self.input,
            )
        }
    }

    /// The least head is no greater than any, and one of them.
    proof fn low_is_least(self, n: nat, j: nat)
        requires
            j < n,
        ensures
            self.low(n) <= self.head(j),
        decreases n,
    {
        if j < n - 1 {
            self.low_is_least((n - 1) as nat, j);
        }
    }

    proof fn low_is_reached(self, n: nat) -> (j: nat)
        requires
            n >= 1,
        ensures
            j < n,
            self.low(n) == self.head(j),
        decreases n,
    {
        if n == 1 {
            0
        } else {
            let k = self.low_is_reached((n - 1) as nat);
            if self.low((n - 1) as nat) <= self.head((n - 1) as nat) {
                k
            } else {
                (n - 1) as nat
            }
        }
    }

    /// No plan costs less than the recursion says.
    pub proof fn no_schedule_is_cheaper(self, s: Schedule)
        requires
            s.sound(),
        ensures
            self.least(s.covers()) <= s.cost(self),
        decreases s,
    {
        match s {
            Schedule::Start => {},
            Schedule::Miss { before } => {
                self.no_schedule_is_cheaper(*before);
            },
            Schedule::Stay { before, len } => {
                self.no_schedule_is_cheaper(*before);
                let j = before.covers();
                let n = j + len;
                self.low_is_least(n, j);
                assert(self.read * n - self.read * j == self.read * len) by (nonlinear_arith)
                    requires
                        n == j + len,
                ;
                assert(self.stored[n - 1] == self.stored[j + len - 1]);
            },
        }
    }

    /// Some plan costs what the recursion says.
    pub proof fn least_is_reached(self, n: nat) -> (s: Schedule)
        ensures
            s.sound(),
            s.covers() == n,
            s.cost(self) == self.least(n),
        decreases n,
    {
        if n == 0 {
            Schedule::Start
        } else {
            let stay = self.input + self.read * n + self.stored[n - 1] + self.low(n);
            if stay <= self.least((n - 1) as nat) + self.input {
                let j = self.low_is_reached(n);
                let before = self.least_is_reached(j);
                let len = (n - j) as nat;
                let s = Schedule::Stay { before: Box::new(before), len };
                assert(self.read * n - self.read * j == self.read * len) by (nonlinear_arith)
                    requires
                        n == j + len,
                ;
                assert(self.stored[j + len - 1] == self.stored[n - 1]);
                s
            } else {
                let before = self.least_is_reached((n - 1) as nat);
                Schedule::Miss { before: Box::new(before) }
            }
        }
    }

    /// Hindsight never costs more than no caching.
    pub proof fn least_is_below_input(self, n: nat)
        ensures
            self.least(n) <= n * self.input,
        decreases n,
    {
        if n == 0 {
            assert(0 * self.input == 0) by (nonlinear_arith);
        } else {
            self.least_is_below_input((n - 1) as nat);
            assert((n - 1) * self.input + self.input == n * self.input) by (nonlinear_arith);
        }
    }

    /// Whether the numbers of `n` requests stay well within the range of the
    /// fixed-point type: prices are no more than `bound`, stored values no
    /// further from zero, and `n` steps of them fit.
    pub open spec fn within(self, n: nat, bound: int) -> bool {
        &&& 0 <= self.input <= bound
        &&& 0 <= self.read <= bound
        &&& n <= self.stored.len()
        &&& forall|k: int|
            0 <= k < self.stored.len() ==> -bound <= #[trigger] self.stored[k] <= bound
        &&& (4 * n + 8) * bound <= i64::MAX
        &&& n <= 9_000_000_000
    }

    /// What the recursion computes stays in range.
    proof fn least_in_range(self, n: nat, bound: int)
        requires
            self.within(n, bound),
        ensures
            -2 * n * bound <= self.least(n) <= n * bound,
            n >= 1 ==> -(3 * n + 1) * bound <= self.low(n) <= (n + 1) * bound,
        decreases n,
    {
        if n > 0 {
            let m = (n - 1) as nat;
            assert((4 * m + 8) * bound <= (4 * n + 8) * bound) by (nonlinear_arith)
                requires
                    m <= n,
                    bound >= 0,
            ;
            self.least_in_range(m, bound);
            assert(0 <= self.read * m <= m * bound) by (nonlinear_arith)
                requires
                    0 <= self.read <= bound,
                    m >= 0,
            ;
            assert(-bound <= self.stored[m as int] <= bound);
            assert(self.head(m) == self.least(m) - self.read * m - self.stored[m as int]);
            assert(-2 * m * bound - m * bound - bound == -(3 * m + 1) * bound) by (nonlinear_arith);
            assert(m * bound + bound == (m + 1) * bound) by (nonlinear_arith);
            assert(-(3 * n + 1) * bound <= -(3 * m + 1) * bound) by (nonlinear_arith)
                requires
                    m <= n,
                    bound >= 0,
            ;
            assert((m + 1) * bound <= (n + 1) * bound) by (nonlinear_arith)
                requires
                    m <= n,
                    bound >= 0,
            ;
            assert(-(3 * n + 1) * bound <= self.low(n) <= (n + 1) * bound);
            assert forall|j: nat| j < n implies -2 * j * bound <= #[trigger] self.least(j) by {
                assert((4 * j + 8) * bound <= (4 * n + 8) * bound) by (nonlinear_arith)
                    requires
                        j <= n,
                        bound >= 0,
                ;
                self.least_in_range(j, bound);
            }
            self.stay_is_bounded_below(n, bound);
            assert(m * bound + bound == n * bound) by (nonlinear_arith)
                requires
                    n == m + 1,
            ;
            assert(-2 * n * bound <= -2 * m * bound) by (nonlinear_arith)
                requires
                    m <= n,
                    bound >= 0,
            ;
        }
    }

    /// A stay costs no less than what storage may give back.
    proof fn stay_is_bounded_below(self, n: nat, bound: int)
        requires
            n >= 1,
            self.within(n, bound),
            forall|j: nat| j < n ==> -2 * j * bound <= #[trigger] self.least(j),
        ensures
            self.input + self.read * n + self.stored[n - 1] + self.low(n) >= -2 * n * bound,
    {
        let j = self.low_is_reached(n);
        assert(self.low(n) == self.least(j) - self.read * j - self.stored[j as int]);
        assert(self.read * n >= self.read * j) by (nonlinear_arith)
            requires
                n >= j,
                self.read >= 0,
        ;
        assert(-2 * j * bound - 2 * bound >= -2 * n * bound) by (nonlinear_arith)
            requires
                j + 1 <= n,
                bound >= 0,
        ;
        assert(-bound <= self.stored[n - 1] && self.stored[j as int] <= bound);
        assert(-2 * j * bound <= self.least(j));
    }
}

impl Case<Fixed> {
    /// What the prefix `node` costs the requests `idxs`, in billionths of a
    /// dollar.
    pub open spec fn tariff(self, node: NodeId, idxs: Seq<usize>) -> Tariff {
        let m = mtok_of::<Fixed>(self.tokens(node));
        let rate = m.prod(self.prices.storage());
        Tariff {
            input: m.prod(self.prices.input_per_mtok).units as int,
            read: m.prod(self.prices.cached_read_per_mtok).units as int,
            stored: Seq::new(
                idxs.len(),
                |k: int| rate.prod(self.trace[idxs[k] as int].time_hours).units as int,
            ),
        }
    }

    /// The benchmark is the recursion: on fixed-point numbers that stay in
    /// range, it computes the least any plan costs, to the billionth.
    pub proof fn hindsight_is_least(self, node: NodeId, idxs: Seq<usize>, n: nat, bound: int)
        requires
            n <= idxs.len(),
            self.tariff(node, idxs).within(idxs.len(), bound),
        ensures
            self.hindsight(node, idxs, n).0.units == self.tariff(node, idxs).least(n),
            n >= 1 ==> self.hindsight(node, idxs, n).1.units == self.tariff(node, idxs).low(n),
        decreases n,
    {
        if n > 0 {
            let t = self.tariff(node, idxs);
            let k = (n - 1) as nat;
            self.hindsight_is_least(node, idxs, k, bound);
            assert((4 * n + 8) * bound <= (4 * idxs.len() + 8) * bound) by (nonlinear_arith)
                requires
                    n <= idxs.len(),
                    bound >= 0,
            ;
            assert((4 * k + 8) * bound <= (4 * n + 8) * bound) by (nonlinear_arith)
                requires
                    k <= n,
                    bound >= 0,
            ;
            t.least_in_range(n, bound);
            t.least_in_range(k, bound);
            let m = mtok_of::<Fixed>(self.tokens(node));
            let read = m.prod(self.prices.cached_read_per_mtok);
            let input = m.prod(self.prices.input_per_mtok);
            let store = m.prod(self.prices.storage()).prod(
                self.trace[idxs[n - 1] as int].time_hours,
            );
            let i = Fixed::int_of(k as u64);
            let next = i.sum(Fixed::int_of(1));
            let (dp, run_min) = self.hindsight(node, idxs, k);
            assert(store.units == t.stored[k as int]);
            assert(i.units == k * ONE);
            assert(next.units == n * ONE);
            assert(read.units == t.read);
            assert(0 <= t.read * k <= k * bound && 0 <= t.read * n <= n * bound)
                by (nonlinear_arith)
                requires
                    0 <= t.read <= bound,
                    k >= 0,
                    n >= 0,
            ;
            let limit = (4 * n + 8) * bound;
            assert(limit == 4 * (n * bound) + 8 * bound) by (nonlinear_arith)
                requires
                    limit == (4 * n + 8) * bound,
            ;
            assert(k * bound <= n * bound) by (nonlinear_arith)
                requires
                    k <= n,
                    bound >= 0,
            ;
            assert(0 <= n * bound) by (nonlinear_arith)
                requires
                    bound >= 0,
            ;
            scaled_by_whole(read, k);
            scaled_by_whole(read, n);
            assert(-2 * k * bound == -2 * (k * bound)) by (nonlinear_arith);
            assert(-2 * n * bound == -2 * (n * bound)) by (nonlinear_arith);
            assert(-(3 * n + 1) * bound == -3 * (n * bound) - bound) by (nonlinear_arith);
            assert((n + 1) * bound == n * bound + bound) by (nonlinear_arith);
            let a = dp.diff(read.prod(i));
            assert(a.units == t.least(k) - t.read * k);
            let h = a.diff(store);
            assert(h.units == t.head(k));
            let low = run_min.smaller(h);
            assert(low.units == t.low(n)) by {
                if k == 0 {
                    assert(run_min == Fixed::inf_of());
                }
            }
            let c = input.sum(read.prod(next));
            assert(c.units == t.input + t.read * n);
            let d = c.sum(store);
            assert(d.units == t.input + t.read * n + t.stored[k as int]);
            let cached = d.sum(low);
            assert(cached.units == t.input + t.read * n + t.stored[k as int] + t.low(n));
            let missed = dp.sum(input);
            assert(missed.units == t.least(k) + t.input);
        }
    }
}

/// A whole multiple of a fixed-point number is exact.
proof fn scaled_by_whole(x: Fixed, n: nat)
    requires
        n <= 9_000_000_000,
        0 <= x.units * n <= i64::MAX,
    ensures
        x.prod(Fixed { units: (n * ONE) as i64 }).units == x.units * n,
{
    let y = Fixed { units: (n * ONE) as i64 };
    assert(y.units == n * ONE);
    assert(x.units * y.units == (x.units * n) * ONE) by (nonlinear_arith)
        requires
            y.units == n * ONE,
    ;
    vstd::arithmetic::div_mod::lemma_div_multiples_vanish(x.units * n, ONE as int);
    assert(((x.units * n) * ONE) / (ONE as int) == x.units * n);
}

} // verus!
