//! No set of cache points beats the plan.
use vstd::prelude::*;

use crate::fixed::{Fixed, ONE};
use crate::number::Real;
use crate::plan::laws::top_ranked_is_top;
use crate::plan::{best_split, merged, mtok_of, top_ranked, Ask, Best, Placement};
use crate::price::Regime;
use crate::trie::NodeId;

verus! {

/// A number of billionths, in billionths of a billionth.
pub open spec fn fine(units: int) -> int {
    1_000_000_000_000_000_000 * units
}

/// What a set of cache points comes to in a part of the trie.
pub struct Tally {
    /// How many of them lie there.
    pub count: nat,
    /// The arrival rate that the highest of them cover.
    pub cover: int,
    /// Their savings, each on the traffic that those below it do not cover, less
    /// their costs.
    pub net: int,
    /// What their savings would be on the traffic by which those below one cover
    /// more than arrives at it.
    pub excess: int,
}

/// The net savings of a plan.
pub open spec fn nets(picks: Seq<Placement<Fixed>>) -> int
    decreases picks.len(),
{
    if picks.len() == 0 {
        0
    } else {
        nets(picks.drop_last()) + picks.last().net_per_hour.units
    }
}

impl Ask<Fixed> {
    /// What a million tokens read from a cache save.
    pub open spec fn spread(self) -> int {
        self.prices.input_per_mtok.units - self.prices.cached_read_per_mtok.units
    }

    /// The savings on `tokens` at an arrival rate, before rounding, in billionths
    /// of a billionth.
    #[verifier::opaque]
    pub open spec fn full(self, tokens: int, rate: int) -> int {
        1000 * tokens * rate * self.spread()
    }

    /// What rounding may take from a savings rate, as [`Self::full`] counts.
    pub open spec fn grain(self) -> int {
        1_000_000_000_000_000_000 + 1_000_000_000 * self.spread()
    }

    /// What rounding may take from `n` of them.
    #[verifier::opaque]
    pub open spec fn slop(self, n: int) -> int {
        n * self.grain()
    }

    /// The traffic of `id` that a cover of `below` leaves.
    pub open spec fn left(self, id: int, below: int) -> Fixed {
        if below >= self.rate(id).units {
            Fixed { units: 0 }
        } else {
            Fixed::held(self.rate(id).units - below)
        }
    }

    /// What a cache point at `id` nets on the traffic that a cover of `below`
    /// leaves.
    #[verifier::opaque]
    pub open spec fn net_over(self, id: int, below: int) -> int {
        self.prices.savings_rate(self.trie.tokens(id) as u64, self.left(id, below)).units
            - self.cost(id).0.units
    }

    /// What it would save on the traffic by which a cover of `below` exceeds what
    /// arrives.
    #[verifier::opaque]
    pub open spec fn excess_over(self, id: int, below: int) -> int {
        let over = below - self.rate(id).units;
        if over > 0 {
            self.full(self.trie.tokens(id), over)
        } else {
            0
        }
    }

    /// What the members of `a` at or below `id` come to.
    pub open spec fn tally(self, a: Set<NodeId>, id: int) -> Tally
        decreases self.room_below(id), 1int, 0nat,
    {
        let below = self.tally_kids(a, id, self.trie.children_sorted(id));
        if a.contains(id as usize) {
            Tally {
                count: below.count + 1,
                cover: self.rate(id).units as int,
                net: below.net + self.net_over(id, below.cover),
                excess: below.excess + self.excess_over(id, below.cover),
            }
        } else {
            below
        }
    }

    /// What the members of `a` below `kids`, children of `id`, come to.
    pub open spec fn tally_kids(self, a: Set<NodeId>, id: int, kids: Seq<NodeId>) -> Tally
        decreases self.room_below(id), 0int, kids.len(),
    {
        if kids.len() == 0 {
            Tally { count: 0, cover: 0, net: 0, excess: 0 }
        } else {
            let before = self.tally_kids(a, id, kids.drop_last());
            let kid = kids.last() as int;
            if self.trie.nodes[id].depth_blocks < self.trie.nodes[kid].depth_blocks {
                let t = self.tally(a, kid);
                Tally {
                    count: before.count + t.count,
                    cover: before.cover + t.cover,
                    net: before.net + t.net,
                    excess: before.excess + t.excess,
                }
            } else {
                before
            }
        }
    }

    #[verifier::opaque]
    pub(crate) open(crate) spec fn added_at(self, id: int, up: u64) -> int {
        self.gain(id, up).units as int
    }

    /// What the members of `a` at or below `id` add below a placement of `up`
    /// tokens.
    pub(crate) open(crate) spec fn added(self, a: Set<NodeId>, id: int, up: u64) -> int
        decreases self.room_below(id), 1int, 0nat,
    {
        let kids = self.trie.children_sorted(id);
        if a.contains(id as usize) {
            self.added_kids(a, id, kids, self.trie.tokens(id) as u64) + self.added_at(id, up)
        } else {
            self.added_kids(a, id, kids, up)
        }
    }

    pub(crate) open(crate) spec fn added_kids(self, a: Set<NodeId>, id: int, kids: Seq<NodeId>, up: u64) -> int
        decreases self.room_below(id), 0int, kids.len(),
    {
        if kids.len() == 0 {
            0
        } else {
            let before = self.added_kids(a, id, kids.drop_last(), up);
            let kid = kids.last() as int;
            if self.trie.nodes[id].depth_blocks < self.trie.nodes[kid].depth_blocks {
                before + self.added(a, kid, up)
            } else {
                before
            }
        }
    }

    /// Rates, costs and savings lie between zero or `-bound` and `bound`, so
    /// that no sum of `k` of them leaves the range of numbers.
    #[verifier::opaque]
    pub open spec fn in_range(self, k: nat, bound: int) -> bool {
        &&& self.trie.wf()
        &&& 0 <= self.spread() <= i64::MAX
        &&& 2 * (k + 1) * bound <= i64::MAX
        &&& 0 <= bound
        &&& forall|id: int| #[trigger] self.trie.live(id) ==> self.node_in_range(id, bound)
    }

    pub open spec fn node_in_range(self, id: int, bound: int) -> bool {
        &&& 0 <= self.trie.tokens(id) <= 9_000_000_000
        &&& 0 <= self.rate(id).units <= bound
        &&& 1000 * self.trie.tokens(id) * self.rate(id).units <= ONE * bound
        &&& self.full(self.trie.tokens(id), self.rate(id).units as int) <= fine(bound)
        &&& -bound <= self.cost(id).0.units <= bound
    }

    /// What is said of an entry for the budget `kk`, below a placement of `up`
    /// tokens: with what that placement has from the traffic that the entry
    /// covers, the entry is worth what its placements report.
    pub(crate) open(crate) spec fn fair(self, e: Best<Fixed>, kk: int, up: u64, bound: int) -> bool {
        let n = e.picks.len();
        &&& n <= kk
        &&& 0 <= e.covered.units <= n * bound
        &&& -(2 * n * bound) <= e.value.units <= 2 * n * bound
        &&& fine(nets(e.picks)) >= fine(e.value.units as int) + self.full(
            up as int,
            e.covered.units as int,
        ) - self.slop(n as int)
    }
}

proof fn nets_add(a: Seq<Placement<Fixed>>, b: Seq<Placement<Fixed>>)
    ensures
        nets(a + b) == nets(a) + nets(b),
    decreases b.len(),
{
    if b.len() == 0 {
        assert(a + b =~= a);
    } else {
        nets_add(a, b.drop_last());
        assert((a + b).drop_last() =~= a + b.drop_last());
        assert((a + b).last() == b.last());
    }
}

impl Ask<Fixed> {
    pub(crate) proof fn ranged(self, k: nat, bound: int)
        requires
            self.in_range(k, bound),
        ensures
            self.trie.wf(),
            0 <= self.spread() <= i64::MAX,
            0 <= bound,
    {
        reveal(Ask::<Fixed>::in_range);
    }

    pub(crate) proof fn ranged_at(self, id: int, k: nat, bound: int)
        requires
            self.in_range(k, bound),
            self.trie.live(id),
        ensures
            0 <= self.trie.tokens(id) <= 9_000_000_000,
            0 <= self.rate(id).units <= bound,
            -bound <= self.cost(id).0.units <= bound,
    {
        reveal(Ask::<Fixed>::in_range);
        assert(self.node_in_range(id, bound));
    }

    pub(crate) proof fn full_adds(self, t: int, u: int, r: int, s: int)
        ensures
            self.full(t + u, r) == self.full(t, r) + self.full(u, r),
            self.full(t - u, r) == self.full(t, r) - self.full(u, r),
            self.full(t, r + s) == self.full(t, r) + self.full(t, s),
            self.full(t, r - s) == self.full(t, r) - self.full(t, s),
            self.full(t, 0) == 0,
            self.full(0, r) == 0,
    {
        reveal(Ask::<Fixed>::full);
        let d = self.spread();
        assert(1000 * (t + u) * r * d == 1000 * t * r * d + 1000 * u * r * d) by (nonlinear_arith);
        assert(1000 * (t - u) * r * d == 1000 * t * r * d - 1000 * u * r * d) by (nonlinear_arith);
        assert(1000 * t * (r + s) * d == 1000 * t * r * d + 1000 * t * s * d) by (nonlinear_arith);
        assert(1000 * t * (r - s) * d == 1000 * t * r * d - 1000 * t * s * d) by (nonlinear_arith);
        assert(1000 * t * 0 * d == 0) by (nonlinear_arith);
        assert(1000 * 0 * r * d == 0) by (nonlinear_arith);
    }

    pub(crate) proof fn full_is_positive(self, t: int, r: int)
        requires
            self.spread() >= 0,
            t >= 0,
            r >= 0,
        ensures
            self.full(t, r) >= 0,
    {
        reveal(Ask::<Fixed>::full);
        let d = self.spread();
        assert(1000 * t * r >= 0) by (nonlinear_arith)
            requires
                t >= 0,
                r >= 0,
        ;
        assert(1000 * t * r * d >= 0) by (nonlinear_arith)
            requires
                1000 * t * r >= 0,
                d >= 0,
        ;
    }

    pub(crate) proof fn slop_adds(self, m: int, n: int)
        requires
            self.spread() >= 0,
        ensures
            self.slop(m + n) == self.slop(m) + self.slop(n),
            self.slop(0) == 0,
            self.slop(1) == self.grain(),
            n >= 0 ==> self.slop(n) >= 0,
    {
        reveal(Ask::<Fixed>::slop);
        let w = self.grain();
        assert((m + n) * w == m * w + n * w) by (nonlinear_arith);
        if n >= 0 {
            assert(n * w >= 0) by (nonlinear_arith)
                requires
                    n >= 0,
                    w >= 0,
            ;
        }
    }

    /// A savings rate is the unrounded one, less a grain at most.
    proof fn savings_are_near(self, tokens: int, rate: int, most: int, top: int, bound: int)
        requires
            0 <= self.spread() <= i64::MAX,
            0 <= tokens <= most <= 9_000_000_000,
            0 <= rate <= top <= i64::MAX,
            bound <= i64::MAX,
            1000 * most * top <= ONE * bound,
            self.full(most, top) <= fine(bound),
        ensures
            ({
                let s = self.prices.savings_rate(
                    tokens as u64,
                    Fixed { units: rate as i64 },
                ).units as int;
                &&& 0 <= s <= bound
                &&& self.full(tokens, rate) - self.grain() <= fine(s) <= self.full(tokens, rate)
            }),
    {
        reveal(Ask::<Fixed>::full);
        let d = self.spread();
        let one = ONE as int;
        let x = Fixed { units: rate as i64 };
        let m = mtok_of::<Fixed>(tokens as u64);
        assert(Fixed::int_of(1_000_000).units == 1_000_000_000_000_000);
        assert(Fixed::int_of(tokens as u64).units == tokens * 1_000_000_000);
        assert((tokens * 1_000_000_000) * 1_000_000_000 / 1_000_000_000_000_000 == 1000 * tokens);
        assert(m.units == 1000 * tokens);
        let raw = rate * (1000 * tokens);
        assert(raw == 1000 * tokens * rate) by (nonlinear_arith)
            requires
                raw == rate * (1000 * tokens),
        ;
        assert(0 <= 1000 * tokens * rate <= 1000 * most * top) by (nonlinear_arith)
            requires
                0 <= tokens <= most,
                0 <= rate <= top,
        ;
        let a = raw / one;
        assert(one * a <= raw < one * a + one);
        assert(0 <= a <= bound);
        assert(x.prod(m).units == a);
        let b = (a * d) / one;
        assert(one * b <= a * d < one * b + one);
        assert(self.prices.input_per_mtok.diff(self.prices.cached_read_per_mtok).units == d);
        assert(0 <= a * d) by (nonlinear_arith)
            requires
                0 <= a,
                0 <= d,
        ;
        assert(one * (a * d) <= raw * d) by (nonlinear_arith)
            requires
                one * a <= raw,
                0 <= d,
        ;
        assert(raw * d <= one * (a * d) + one * d) by (nonlinear_arith)
            requires
                raw <= one * a + one,
                0 <= d,
        ;
        assert(raw * d <= 1000 * most * top * d) by (nonlinear_arith)
            requires
                raw <= 1000 * most * top,
                0 <= d,
        ;
        assert(raw * d == 1000 * tokens * rate * d);
        assert(fine(b) <= raw * d <= fine(bound));
        assert(x.prod(m).prod(Fixed { units: d as i64 }).units == b);
    }

    /// The savings of a node on all of its traffic beyond `up` tokens, and on
    /// what is left of it.
    pub(crate) proof fn node_sums(self, id: int, up: u64, below: int, k: nat, bound: int)
        requires
            self.in_range(k, bound),
            self.trie.live(id),
            up <= self.trie.tokens(id),
        ensures
            ({
                let t = self.trie.tokens(id);
                let l = self.rate(id).units as int;
                let c = self.cost(id).0.units as int;
                let g = self.gain(id, up).units as int;
                let s = self.prices.savings_rate(t as u64, self.left(id, below)).units as int;
                let rest = if below >= l {
                    0
                } else {
                    l - below
                };
                &&& -2 * bound <= g <= 2 * bound
                &&& self.full(t - up, l) - self.grain() <= fine(g + c) <= self.full(t - up, l)
                &&& below >= 0 ==> 0 <= s <= bound
                &&& below >= 0 ==> self.full(t, rest) - self.grain() <= fine(s) <= self.full(
                    t,
                    rest,
                )
            }),
    {
        reveal(Ask::<Fixed>::in_range);
        let t = self.trie.tokens(id);
        let l = self.rate(id).units as int;
        assert(self.node_in_range(id, bound));
        assert(bound <= i64::MAX) by (nonlinear_arith)
            requires
                2 * (k + 1) * bound <= i64::MAX,
                0 <= bound,
        ;
        assert(2 * bound <= i64::MAX) by (nonlinear_arith)
            requires
                2 * (k + 1) * bound <= i64::MAX,
                0 <= bound,
        ;
        self.savings_are_near(t - up, l, t, l, bound);
        assert(Fixed { units: l as i64 } == self.rate(id));
        if below >= 0 {
            let rest = if below >= l {
                0
            } else {
                l - below
            };
            self.savings_are_near(t, rest, t, l, bound);
            assert(self.left(id, below) == Fixed { units: rest as i64 });
        }
    }
}

/// The best split is no worse than any split, nor than all to the first.
pub(crate) proof fn split_is_best(acc: Seq<Best<Fixed>>, ch: Seq<Best<Fixed>>, m: int, n: nat)
    ensures
        best_split(acc, ch, m, n).value.units >= acc[m].value.units,
        forall|i: int|
            0 <= i < n ==> best_split(acc, ch, m, n).value.units >= (#[trigger] acc[i]).and(
                ch[m - i],
            ).value.units,
    decreases n,
{
    if n > 0 {
        split_is_best(acc, ch, m, (n - 1) as nat);
    }
}

impl Ask<Fixed> {
    /// A multiple of the bound up to the budget is in range.
    proof fn bound_times(self, m: nat, n: nat, k: nat, bound: int)
        requires
            self.in_range(k, bound),
            m + n <= k,
        ensures
            (m + n) * bound == m * bound + n * bound,
            2 * (m + n) * bound == 2 * m * bound + 2 * n * bound,
            0 <= m * bound,
            0 <= n * bound,
            2 * m * bound == 2 * (m * bound),
            (m + 1) * bound == m * bound + bound,
            2 * (m + 1) * bound == 2 * m * bound + 2 * bound,
            2 * (m + n + 1) * bound <= i64::MAX,
            2 * (m + n + 1) * bound == 2 * m * bound + 2 * n * bound + 2 * bound,
    {
        reveal(Ask::<Fixed>::in_range);
        assert((m + n) * bound == m * bound + n * bound) by (nonlinear_arith);
        assert(2 * (m + n) * bound == 2 * m * bound + 2 * n * bound) by (nonlinear_arith);
        assert(2 * m * bound == 2 * (m * bound)) by (nonlinear_arith);
        assert((m + 1) * bound == m * bound + bound) by (nonlinear_arith);
        assert(2 * (m + 1) * bound == 2 * m * bound + 2 * bound) by (nonlinear_arith);
        assert(2 * (m + n + 1) * bound == 2 * m * bound + 2 * n * bound + 2 * bound)
            by (nonlinear_arith);
        assert(0 <= m * bound && 0 <= n * bound) by (nonlinear_arith)
            requires
                0 <= bound,
        ;
        assert(2 * (m + n + 1) * bound <= 2 * (k + 1) * bound) by (nonlinear_arith)
            requires
                m + n <= k,
                0 <= bound,
        ;
    }

    pub(crate) proof fn and_is_fair(
        self,
        a: Best<Fixed>,
        b: Best<Fixed>,
        i: int,
        j: int,
        up: u64,
        k: nat,
        bound: int,
    )
        requires
            self.in_range(k, bound),
            self.fair(a, i, up, bound),
            self.fair(b, j, up, bound),
            i + j <= k,
        ensures
            self.fair(a.and(b), i + j, up, bound),
            a.and(b).value.units == a.value.units + b.value.units,
            a.and(b).covered.units == a.covered.units + b.covered.units,
    {
        self.ranged(k, bound);
        let (m, n) = (a.picks.len(), b.picks.len());
        self.bound_times(m, n, k, bound);
        self.bound_times(n, m, k, bound);
        nets_add(a.picks, b.picks);
        self.slop_adds(m as int, n as int);
        self.full_adds(up as int, 0, a.covered.units as int, b.covered.units as int);
    }

    proof fn split_is_fair(
        self,
        acc: Seq<Best<Fixed>>,
        ch: Seq<Best<Fixed>>,
        m: int,
        n: nat,
        up: u64,
        k: nat,
        bound: int,
    )
        requires
            self.in_range(k, bound),
            0 <= m <= k,
            n <= m + 1,
            acc.len() == k + 1,
            ch.len() == k + 1,
            forall|i: int| 0 <= i <= k ==> self.fair(#[trigger] acc[i], i, up, bound),
            forall|i: int| 0 <= i <= k ==> self.fair(#[trigger] ch[i], i, up, bound),
        ensures
            self.fair(best_split(acc, ch, m, n), m, up, bound),
        decreases n,
    {
        self.ranged(k, bound);
        if n > 0 {
            self.split_is_fair(acc, ch, m, (n - 1) as nat, up, k, bound);
            self.and_is_fair(acc[n - 1], ch[m - (n - 1)], n - 1, m - (n - 1), up, k, bound);
        }
    }

    proof fn zero_is_fair(self, kk: int, up: u64, k: nat, bound: int)
        requires
            self.in_range(k, bound),
            0 <= kk,
        ensures
            self.fair(Best::<Fixed>::zero(), kk, up, bound),
    {
        self.ranged(k, bound);
        self.slop_adds(0, 0);
        self.full_adds(up as int, 0, 0, 0);
        assert(0 * bound == 0 && 2 * 0 * bound == 0);
    }

    /// A placement on top of fair ones is fair.
    #[verifier::rlimit(60)]
    pub(crate) proof fn topped_is_fair(self, id: int, base: Best<Fixed>, kk: int, up: u64, k: nat, bound: int)
        requires
            self.in_range(k, bound),
            self.trie.live(id),
            up <= self.trie.tokens(id),
            1 <= kk <= k,
            self.fair(base, kk - 1, self.trie.tokens(id) as u64, bound),
        ensures
            self.topped(id, base, up) is Some ==> {
                let e = self.topped(id, base, up)->0;
                &&& self.fair(e, kk, up, bound)
                &&& e.value.units == base.value.units + self.gain(id, up).units
                &&& e.covered == self.rate(id)
                &&& e.picks.len() >= 1
            },
    {
        self.ranged(k, bound);
        if let Some(e) = self.topped(id, base, up) {
            let n = base.picks.len();
            let t = self.trie.tokens(id);
            let l = self.rate(id).units as int;
            let cov = base.covered.units as int;
            self.bound_times(n, 0, k, bound);
            self.node_sums(id, up, cov, k, bound);
            self.ranged_at(id, k, bound);
            assert(self.rate(id).diff(base.covered).larger(Fixed::int_of(0)) == self.left(id, cov));
            assert(e.picks.drop_last() =~= base.picks);
            assert(nets(e.picks) == nets(base.picks) + e.picks.last().net_per_hour.units);
            self.slop_adds(n as int, 1);
            self.full_adds(t, up as int, l, cov);
            self.full_adds(t, up as int, l, 0);
            if cov > l {
                self.full_is_positive(t, cov - l);
                self.full_adds(t, 0, cov, l);
            }
        }
    }

    /// Every entry of a subtree's table is fair.
    #[verifier::rlimit(60)]
    pub(crate) proof fn solved_is_fair(self, id: int, k: nat, up: u64, bound: int)
        requires
            self.in_range(k, bound),
            self.trie.live(id),
            up <= self.trie.tokens(id),
        ensures
            self.solved(id, k, up).len() == k + 1,
            forall|kk: int|
                0 <= kk <= k ==> self.fair(#[trigger] self.solved(id, k, up)[kk], kk, up, bound),
        decreases self.room_below(id), 1int, 0nat,
    {
        self.ranged(k, bound);
        let kids = self.trie.children_sorted(id);
        let t = self.trie.tokens(id) as u64;
        self.ranged_at(id, k, bound);
        assert(kids =~= kids.take(kids.len() as int));
        self.solved_kids_is_fair(id, kids, k, up, bound);
        self.solved_kids_is_fair(id, kids, k, t, bound);
        let below = self.solved_kids(id, kids, k, t);
        let out = self.solved(id, k, up);
        assert forall|kk: int| 0 <= kk <= k implies self.fair(
            #[trigger] out[kk],
            kk,
            up,
            bound,
        ) by {
            assert(self.fair(self.solved_kids(id, kids, k, up)[kk], kk, up, bound));
            if kk > 0 {
                assert(self.fair(below[kk - 1], kk - 1, t, bound));
                self.topped_is_fair(id, below[kk - 1], kk, up, k, bound);
            }
        }
    }

    #[verifier::rlimit(60)]
    pub(crate) proof fn solved_kids_is_fair(self, id: int, kids: Seq<NodeId>, k: nat, up: u64, bound: int)
        requires
            self.in_range(k, bound),
            self.trie.live(id),
            up <= self.trie.tokens(id),
            kids.len() <= self.trie.children_sorted(id).len(),
            kids == self.trie.children_sorted(id).take(kids.len() as int),
        ensures
            self.solved_kids(id, kids, k, up).len() == k + 1,
            forall|kk: int|
                0 <= kk <= k ==> self.fair(
                    #[trigger] self.solved_kids(id, kids, k, up)[kk],
                    kk,
                    up,
                    bound,
                ),
        decreases self.room_below(id), 0int, kids.len(),
    {
        self.ranged(k, bound);
        let out = self.solved_kids(id, kids, k, up);
        if kids.len() == 0 {
            assert forall|kk: int| 0 <= kk <= k implies self.fair(
                #[trigger] out[kk],
                kk,
                up,
                bound,
            ) by {
                self.zero_is_fair(kk, up, k, bound);
            }
        } else {
            let all = self.trie.children_sorted(id);
            let rest = kids.drop_last();
            let kid = kids.last() as int;
            assert(kids.last() == all[kids.len() - 1]);
            assert(rest =~= all.take(rest.len() as int));
            self.trie.sorted_child_hangs(id, kids.len() - 1);
            self.trie.child_is_longer(id, kid);
            self.solved_kids_is_fair(id, rest, k, up, bound);
            self.solved_is_fair(kid, k, up, bound);
            let acc = self.solved_kids(id, rest, k, up);
            let ch = self.solved(kid, k, up);
            assert(out == merged(acc, ch));
            assert forall|kk: int| 0 <= kk <= k implies self.fair(
                #[trigger] out[kk],
                kk,
                up,
                bound,
            ) by {
                self.split_is_fair(acc, ch, kk, (kk + 1) as nat, up, k, bound);
            }
        }
    }

    /// Whether `e` is worth what `f` is, and `by` more tokens on the traffic that
    /// `f` covers, but for rounding.
    spec fn outdoes(self, e: Best<Fixed>, f: Best<Fixed>, by: int) -> bool {
        fine(e.value.units as int) >= fine(f.value.units as int) + self.full(
            by,
            f.covered.units as int,
        ) - self.slop(f.picks.len() as int)
    }

    proof fn split_outdoes(
        self,
        acc: Seq<Best<Fixed>>,
        ch: Seq<Best<Fixed>>,
        up: u64,
        acc2: Seq<Best<Fixed>>,
        ch2: Seq<Best<Fixed>>,
        up2: u64,
        m: int,
        n: nat,
        k: nat,
        bound: int,
    )
        requires
            self.in_range(k, bound),
            0 <= m <= k,
            n <= m + 1,
            acc.len() == ch.len() == acc2.len() == ch2.len() == k + 1,
            forall|i: int| 0 <= i <= k ==> self.fair(#[trigger] acc[i], i, up, bound),
            forall|i: int| 0 <= i <= k ==> self.fair(#[trigger] ch[i], i, up, bound),
            forall|i: int| 0 <= i <= k ==> self.fair(#[trigger] acc2[i], i, up2, bound),
            forall|i: int| 0 <= i <= k ==> self.fair(#[trigger] ch2[i], i, up2, bound),
            forall|i: int|
                0 <= i <= k ==> self.outdoes(#[trigger] acc[i], acc2[i], up2 - up),
            forall|i: int| 0 <= i <= k ==> self.outdoes(#[trigger] ch[i], ch2[i], up2 - up),
        ensures
            self.outdoes(best_split(acc, ch, m, n), best_split(acc2, ch2, m, n), up2 - up),
        decreases n,
    {
        self.ranged(k, bound);
        if n == 0 {
            assert(self.outdoes(acc[m], acc2[m], up2 - up));
        } else {
            let i = n - 1;
            let j = m - i;
            self.split_outdoes(acc, ch, up, acc2, ch2, up2, m, (n - 1) as nat, k, bound);
            assert(self.outdoes(acc[i], acc2[i], up2 - up));
            assert(self.outdoes(ch[j], ch2[j], up2 - up));
            self.and_is_fair(acc[i], ch[j], i, j, up, k, bound);
            self.and_is_fair(acc2[i], ch2[j], i, j, up2, k, bound);
            self.slop_adds(acc2[i].picks.len() as int, ch2[j].picks.len() as int);
            self.full_adds(
                up2 - up,
                0,
                acc2[i].covered.units as int,
                ch2[j].covered.units as int,
            );
            split_is_best(acc, ch, m, n);
        }
    }

    /// What is best below a placement of `up2` tokens is worth that much more
    /// below one of `up`.
    #[verifier::rlimit(60)]
    proof fn solved_outdoes(self, id: int, k: nat, up: u64, up2: u64, bound: int)
        requires
            self.in_range(k, bound),
            self.trie.live(id),
            up <= up2 <= self.trie.tokens(id),
        ensures
            forall|kk: int|
                0 <= kk <= k ==> self.outdoes(
                    #[trigger] self.solved(id, k, up)[kk],
                    self.solved(id, k, up2)[kk],
                    up2 - up,
                ),
        decreases self.room_below(id), 1int, 0nat,
    {
        self.ranged(k, bound);
        let kids = self.trie.children_sorted(id);
        let t = self.trie.tokens(id) as u64;
        self.ranged_at(id, k, bound);
        assert(kids =~= kids.take(kids.len() as int));
        self.solved_kids_outdoes(id, kids, k, up, up2, bound);
        self.solved_kids_is_fair(id, kids, k, up, bound);
        self.solved_kids_is_fair(id, kids, k, up2, bound);
        self.solved_kids_is_fair(id, kids, k, t, bound);
        let below = self.solved_kids(id, kids, k, t);
        let out = self.solved(id, k, up);
        assert forall|kk: int| 0 <= kk <= k implies self.outdoes(
            #[trigger] out[kk],
            self.solved(id, k, up2)[kk],
            up2 - up,
        ) by {
            assert(self.outdoes(
                self.solved_kids(id, kids, k, up)[kk],
                self.solved_kids(id, kids, k, up2)[kk],
                up2 - up,
            ));
            if kk > 0 && self.eligible(id) {
                let base = below[kk - 1];
                assert(self.fair(base, kk - 1, t, bound));
                self.topped_is_fair(id, base, kk, up, k, bound);
                self.topped_is_fair(id, base, kk, up2, k, bound);
                self.node_sums(id, up, 0, k, bound);
                self.node_sums(id, up2, 0, k, bound);
                let l = self.rate(id).units as int;
                self.full_adds(t as int, up as int, l, 0);
                self.full_adds(t as int, up2 as int, l, 0);
                self.full_adds(up2 as int, up as int, l, 0);
                self.slop_adds(1, base.picks.len() as int);
            }
        }
    }

    #[verifier::rlimit(60)]
    proof fn solved_kids_outdoes(
        self,
        id: int,
        kids: Seq<NodeId>,
        k: nat,
        up: u64,
        up2: u64,
        bound: int,
    )
        requires
            self.in_range(k, bound),
            self.trie.live(id),
            up <= up2 <= self.trie.tokens(id),
            kids.len() <= self.trie.children_sorted(id).len(),
            kids == self.trie.children_sorted(id).take(kids.len() as int),
        ensures
            forall|kk: int|
                0 <= kk <= k ==> self.outdoes(
                    #[trigger] self.solved_kids(id, kids, k, up)[kk],
                    self.solved_kids(id, kids, k, up2)[kk],
                    up2 - up,
                ),
        decreases self.room_below(id), 0int, kids.len(),
    {
        self.ranged(k, bound);
        let out = self.solved_kids(id, kids, k, up);
        if kids.len() == 0 {
            self.slop_adds(0, 0);
            self.full_adds(up2 - up, 0, 0, 0);
        } else {
            let all = self.trie.children_sorted(id);
            let rest = kids.drop_last();
            let kid = kids.last() as int;
            assert(kids.last() == all[kids.len() - 1]);
            assert(rest =~= all.take(rest.len() as int));
            self.trie.sorted_child_hangs(id, kids.len() - 1);
            self.trie.child_is_longer(id, kid);
            self.solved_kids_outdoes(id, rest, k, up, up2, bound);
            self.solved_outdoes(kid, k, up, up2, bound);
            self.solved_kids_is_fair(id, rest, k, up, bound);
            self.solved_kids_is_fair(id, rest, k, up2, bound);
            self.solved_is_fair(kid, k, up, bound);
            self.solved_is_fair(kid, k, up2, bound);
            let (acc, ch) = (self.solved_kids(id, rest, k, up), self.solved(kid, k, up));
            let (acc2, ch2) = (self.solved_kids(id, rest, k, up2), self.solved(kid, k, up2));
            assert(out == merged(acc, ch));
            assert forall|kk: int| 0 <= kk <= k implies self.outdoes(
                #[trigger] out[kk],
                self.solved_kids(id, kids, k, up2)[kk],
                up2 - up,
            ) by {
                self.split_outdoes(
                    acc,
                    ch,
                    up,
                    acc2,
                    ch2,
                    up2,
                    kk,
                    (kk + 1) as nat,
                    k,
                    bound,
                );
            }
        }
    }
}

impl Ask<Fixed> {
    /// Every member of `a` in the trie may be placed.
    pub open spec fn may_place(self, a: Set<NodeId>) -> bool {
        forall|id: int| #[trigger]
            self.trie.live(id) && a.contains(id as usize) ==> self.eligible(id)
    }

    /// A placement pays wherever its savings exceed its cost: no threshold asks
    /// for more.
    pub open spec fn plain(self) -> bool {
        0 < self.theta_up.units <= ONE && 0 < self.theta_down.units <= ONE
    }

    /// What rounding may take from an entry for a set of `c` cache points.
    #[verifier::opaque]
    spec fn loss(self, c: nat, k: nat) -> int {
        self.slop((c * k) as int)
    }

    proof fn loss_adds(self, m: nat, n: nat, k: nat)
        requires
            self.spread() >= 0,
        ensures
            self.loss(m + n, k) == self.loss(m, k) + self.loss(n, k),
            self.loss(1, k) == self.slop(k as int),
            self.loss(0, k) == 0,
    {
        reveal(Ask::<Fixed>::loss);
        assert((m + n) * k == m * k + n * k) by (nonlinear_arith);
        self.slop_adds((m * k) as int, (n * k) as int);
        assert(0 * k == 0 && 1 * k == k);
    }

    /// With `id` on top of a base for the budget `j`, or without it where it does
    /// not pay, the base is worth what `id` adds to it.
    #[verifier::rlimit(60)]
    proof fn topping_reaches(self, id: int, j: int, k: nat, up: u64, bound: int) -> (r: int)
        requires
            self.in_range(k, bound),
            self.plain(),
            self.trie.live(id),
            self.eligible(id),
            up <= self.trie.tokens(id),
            0 <= j < k,
        ensures
            j <= r <= j + 1,
            ({
                let base = self.solved_kids(
                    id,
                    self.trie.children_sorted(id),
                    k,
                    self.trie.tokens(id) as u64,
                )[j];
                fine(self.solved(id, k, up)[r].value.units as int) >= fine(
                    base.value.units + self.added_at(id, up),
                ) - self.slop(k as int)
            }),
    {
        self.ranged(k, bound);
        reveal(Ask::<Fixed>::added_at);
        let kids = self.trie.children_sorted(id);
        let t = self.trie.tokens(id) as u64;
        self.ranged_at(id, k, bound);
        assert(kids =~= kids.take(kids.len() as int));
        self.solved_kids_is_fair(id, kids, k, up, bound);
        self.solved_kids_is_fair(id, kids, k, t, bound);
        let flat = self.solved_kids(id, kids, k, up);
        let base = self.solved_kids(id, kids, k, t)[j];
        let n = base.picks.len() as int;
        assert(self.fair(base, j, t, bound));
        self.topped_is_fair(id, base, j + 1, up, k, bound);
        self.slop_adds(n + 1, k - (n + 1));
        self.slop_adds(n, 1);
        self.slop_adds(0, k as int);
        if self.topped(id, base, up) is Some {
            assert(self.solved(id, k, up)[j + 1] == flat[j + 1].or_better(
                self.topped(id, base, up)->0,
            ));
            j + 1
        } else {
            let cov = base.covered.units as int;
            self.node_sums(id, up, cov, k, bound);
            assert(self.rate(id).diff(base.covered).larger(Fixed::int_of(0)) == self.left(id, cov));
            assert(self.savings(id, base).units <= self.cost(id).0.units) by {
                let c = self.cost(id).0.units as int;
                let h = self.threshold(id).units as int;
                if c >= 0 {
                    assert(h * c <= ONE * c) by (nonlinear_arith)
                        requires
                            0 <= c,
                            h <= ONE,
                    ;
                    assert((h * c) / (ONE as int) <= c);
                } else {
                    assert(h * c < 0) by (nonlinear_arith)
                        requires
                            c < 0,
                            h > 0,
                    ;
                    assert((h * c) / (ONE as int) < 0);
                }
            }
            self.solved_kids_outdoes(id, kids, k, up, t, bound);
            assert(self.outdoes(flat[j], base, t - up));
            assert(self.solved(id, k, up)[j].value.units >= flat[j].value.units);
            self.what_does_not_pay(
                t as int,
                up as int,
                self.rate(id).units as int,
                cov,
                self.cost(id).0.units as int,
                self.gain(id, up).units as int,
                self.savings(id, base).units as int,
            );
            j
        }
    }

    /// A node that does not pay on what is left of its traffic adds no more than
    /// the cover below it has from the tokens between.
    proof fn what_does_not_pay(self, t: int, up: int, l: int, cov: int, c: int, g: int, s: int)
        requires
            self.spread() >= 0,
            0 <= up <= t,
            0 <= l,
            0 <= cov,
            s <= c,
            fine(g + c) <= self.full(t - up, l),
            self.full(
                t,
                if cov >= l {
                    0
                } else {
                    l - cov
                },
            ) - self.grain() <= fine(s),
            0 <= s,
        ensures
            fine(g) <= self.full(t - up, cov) + self.grain(),
    {
        self.full_adds(t, up, l, cov);
        self.full_adds(t, up, cov, 0);
        if cov >= l {
            self.full_adds(t - up, 0, cov, l);
            self.full_is_positive(t - up, cov - l);
        } else {
            self.full_adds(up, 0, l, cov);
            self.full_is_positive(up, l - cov);
        }
    }

    /// Some budget within the size of `a` has an entry worth what `a` adds.
    #[verifier::rlimit(60)]
    proof fn solved_reaches(self, a: Set<NodeId>, id: int, k: nat, up: u64, bound: int) -> (j: int)
        requires
            self.in_range(k, bound),
            self.plain(),
            self.may_place(a),
            self.trie.live(id),
            up <= self.trie.tokens(id),
            self.tally(a, id).count <= k,
        ensures
            0 <= j <= self.tally(a, id).count,
            fine(self.solved(id, k, up)[j].value.units as int) >= fine(self.added(a, id, up))
                - self.loss(self.tally(a, id).count, k),
        decreases self.room_below(id), 1int, 0nat,
    {
        self.ranged(k, bound);
        let kids = self.trie.children_sorted(id);
        let t = self.trie.tokens(id) as u64;
        let below = self.tally_kids(a, id, kids);
        self.ranged_at(id, k, bound);
        assert(kids =~= kids.take(kids.len() as int));
        if a.contains(id as usize) {
            assert(self.eligible(id));
            let j = self.kids_reach(a, id, kids, k, t, bound);
            self.loss_adds(below.count, 1, k);
            self.topping_reaches(id, j, k, up, bound)
        } else {
            let j = self.kids_reach(a, id, kids, k, up, bound);
            self.solved_kids_is_fair(id, kids, k, up, bound);
            assert(self.solved(id, k, up)[j].value.units >= self.solved_kids(
                id,
                kids,
                k,
                up,
            )[j].value.units);
            j
        }
    }

    #[verifier::rlimit(60)]
    proof fn kids_reach(
        self,
        a: Set<NodeId>,
        id: int,
        kids: Seq<NodeId>,
        k: nat,
        up: u64,
        bound: int,
    ) -> (j: int)
        requires
            self.in_range(k, bound),
            self.plain(),
            self.may_place(a),
            self.trie.live(id),
            up <= self.trie.tokens(id),
            kids.len() <= self.trie.children_sorted(id).len(),
            kids == self.trie.children_sorted(id).take(kids.len() as int),
            self.tally_kids(a, id, kids).count <= k,
        ensures
            0 <= j <= self.tally_kids(a, id, kids).count,
            fine(self.solved_kids(id, kids, k, up)[j].value.units as int) >= fine(self.added_kids(
                a,
                id,
                kids,
                up,
            )) - self.loss(self.tally_kids(a, id, kids).count, k),
        decreases self.room_below(id), 0int, kids.len(),
    {
        self.ranged(k, bound);
        if kids.len() == 0 {
            self.loss_adds(0, 0, k);
            0
        } else {
            let all = self.trie.children_sorted(id);
            let rest = kids.drop_last();
            let kid = kids.last() as int;
            assert(kids.last() == all[kids.len() - 1]);
            assert(rest =~= all.take(rest.len() as int));
            self.trie.sorted_child_hangs(id, kids.len() - 1);
            self.trie.child_is_longer(id, kid);
            let i = self.kids_reach(a, id, rest, k, up, bound);
            let j = self.solved_reaches(a, kid, k, up, bound);
            self.solved_kids_is_fair(id, rest, k, up, bound);
            self.solved_is_fair(kid, k, up, bound);
            let (acc, ch) = (self.solved_kids(id, rest, k, up), self.solved(kid, k, up));
            let (m, n) = (self.tally_kids(a, id, rest).count, self.tally(a, kid).count);
            assert(self.solved_kids(id, kids, k, up) == merged(acc, ch));
            assert(self.fair(acc[i], i, up, bound));
            assert(self.fair(ch[j], j, up, bound));
            self.and_is_fair(acc[i], ch[j], i, j, up, k, bound);
            split_is_best(acc, ch, i + j, (i + j + 1) as nat);
            assert(ch[i + j - i] == ch[j]);
            self.loss_adds(m, n, k);
            i + j
        }
    }

    proof fn member_is_added(self, id: int, k: nat, up: u64, below: int, bound: int)
        requires
            self.in_range(k, bound),
            self.trie.live(id),
            up <= self.trie.tokens(id),
            0 <= below,
        ensures
            fine(self.net_over(id, below)) + self.full(self.trie.tokens(id), below) <= fine(
                self.added_at(id, up),
            ) + self.full(up as int, self.rate(id).units as int) + self.grain() + self.excess_over(
                id,
                below,
            ),
    {
        self.ranged(k, bound);
        reveal(Ask::<Fixed>::added_at);
        reveal(Ask::<Fixed>::net_over);
        reveal(Ask::<Fixed>::excess_over);
        let t = self.trie.tokens(id);
        let l = self.rate(id).units as int;
        self.node_sums(id, up, below, k, bound);
        self.full_adds(t, up as int, l, below);
        self.full_adds(t, 0, below, l);
    }

    /// What `a` is worth is what it adds, and what a placement above has from the
    /// traffic that `a` covers, but for rounding.
    #[verifier::rlimit(60)]
    pub(crate) proof fn tally_is_added(self, a: Set<NodeId>, id: int, k: nat, up: u64, bound: int)
        requires
            self.in_range(k, bound),
            self.trie.live(id),
            up <= self.trie.tokens(id),
        ensures
            ({
                let t = self.tally(a, id);
                &&& t.cover >= 0
                &&& fine(t.net) <= fine(self.added(a, id, up)) + self.full(up as int, t.cover)
                    + self.slop(t.count as int) + t.excess
            }),
        decreases self.room_below(id), 1int, 0nat,
    {
        self.ranged(k, bound);
        let kids = self.trie.children_sorted(id);
        let t = self.trie.tokens(id);
        self.ranged_at(id, k, bound);
        assert(kids =~= kids.take(kids.len() as int));
        if a.contains(id as usize) {
            self.kids_are_added(a, id, kids, k, t as u64, bound);
            let below = self.tally_kids(a, id, kids);
            self.member_is_added(id, k, up, below.cover, bound);
            self.slop_adds(below.count as int, 1);
        } else {
            self.kids_are_added(a, id, kids, k, up, bound);
        }
    }

    #[verifier::rlimit(60)]
    proof fn kids_are_added(
        self,
        a: Set<NodeId>,
        id: int,
        kids: Seq<NodeId>,
        k: nat,
        up: u64,
        bound: int,
    )
        requires
            self.in_range(k, bound),
            self.trie.live(id),
            up <= self.trie.tokens(id),
            kids.len() <= self.trie.children_sorted(id).len(),
            kids == self.trie.children_sorted(id).take(kids.len() as int),
        ensures
            ({
                let t = self.tally_kids(a, id, kids);
                &&& t.cover >= 0
                &&& fine(t.net) <= fine(self.added_kids(a, id, kids, up)) + self.full(
                    up as int,
                    t.cover,
                ) + self.slop(t.count as int) + t.excess
            }),
        decreases self.room_below(id), 0int, kids.len(),
    {
        self.ranged(k, bound);
        if kids.len() == 0 {
            self.slop_adds(0, 0);
            self.full_adds(up as int, 0, 0, 0);
        } else {
            let all = self.trie.children_sorted(id);
            let rest = kids.drop_last();
            let kid = kids.last() as int;
            assert(kids.last() == all[kids.len() - 1]);
            assert(rest =~= all.take(rest.len() as int));
            self.trie.sorted_child_hangs(id, kids.len() - 1);
            self.trie.child_is_longer(id, kid);
            self.kids_are_added(a, id, rest, k, up, bound);
            self.tally_is_added(a, kid, k, up, bound);
            let (x, y) = (self.tally_kids(a, id, rest), self.tally(a, kid));
            self.slop_adds(x.count as int, y.count as int);
            self.full_adds(up as int, 0, x.cover, y.cover);
        }
    }
}

impl Ask<Fixed> {
    /// The members of `a` at or below `id`.
    pub(crate) open(crate) spec fn members(self, a: Set<NodeId>, id: int) -> Set<NodeId> {
        let d = self.trie.nodes[id].depth_blocks;
        a.filter(
            |n: NodeId|
                self.trie.live(n as int) && self.trie.nodes[n as int].depth_blocks >= d
                    && self.trie.ancestor(n as int, d as int) == id,
        )
    }

    /// The members of `a` at or below one of `kids`, children of `id`.
    spec fn members_below(self, a: Set<NodeId>, id: int, kids: Seq<NodeId>) -> Set<NodeId> {
        let d = self.trie.nodes[id].depth_blocks;
        a.filter(
            |n: NodeId|
                self.trie.live(n as int) && self.trie.nodes[n as int].depth_blocks > d
                    && kids.contains(self.trie.ancestor(n as int, d + 1) as usize),
        )
    }

    /// No member is counted twice.
    pub(crate) proof fn count_is_fair(self, a: Set<NodeId>, id: int)
        requires
            self.trie.wf(),
            self.trie.live(id),
            a.finite(),
        ensures
            self.tally(a, id).count <= self.members(a, id).len(),
        decreases self.room_below(id), 1int, 0nat,
    {
        let kids = self.trie.children_sorted(id);
        let d = self.trie.nodes[id].depth_blocks as int;
        assert(kids =~= kids.take(kids.len() as int));
        self.kids_are_distinct(id);
        self.kids_count_is_fair(a, id, kids);
        let all = self.members(a, id);
        let low = self.members_below(a, id, kids);
        a.lemma_len_filter(
            |n: NodeId|
                self.trie.live(n as int) && self.trie.nodes[n as int].depth_blocks >= d
                    && self.trie.ancestor(n as int, d) == id,
        );
        assert forall|n: NodeId| low.contains(n) implies all.contains(n) by {
            let c = self.trie.ancestor(n as int, d + 1);
            self.trie.ancestors_hang(n as int, d);
            let y = choose|y: int| 0 <= y < kids.len() && kids[y] == c as usize;
            self.trie.sorted_child_hangs(id, y);
            self.trie.ancestor_is_live(n as int, d);
        }
        assert(low.subset_of(all));
        if a.contains(id as usize) {
            assert(all.contains(id as usize));
            assert(!low.contains(id as usize));
            vstd::set_lib::lemma_len_subset(low.insert(id as usize), all);
        } else {
            vstd::set_lib::lemma_len_subset(low, all);
        }
    }

    proof fn kids_count_is_fair(self, a: Set<NodeId>, id: int, kids: Seq<NodeId>)
        requires
            self.trie.wf(),
            self.trie.live(id),
            a.finite(),
            kids.len() <= self.trie.children_sorted(id).len(),
            kids == self.trie.children_sorted(id).take(kids.len() as int),
            self.trie.children_sorted(id).no_duplicates(),
        ensures
            self.members_below(a, id, kids).finite(),
            self.tally_kids(a, id, kids).count <= self.members_below(a, id, kids).len(),
        decreases self.room_below(id), 0int, kids.len(),
    {
        let d = self.trie.nodes[id].depth_blocks as int;
        let both = self.members_below(a, id, kids);
        a.lemma_len_filter(
            |n: NodeId|
                self.trie.live(n as int) && self.trie.nodes[n as int].depth_blocks > d
                    && kids.contains(self.trie.ancestor(n as int, d + 1) as usize),
        );
        if kids.len() > 0 {
            let all = self.trie.children_sorted(id);
            let rest = kids.drop_last();
            let kid = kids.last();
            assert(kid == all[kids.len() - 1]);
            assert(rest =~= all.take(rest.len() as int));
            self.trie.sorted_child_hangs(id, kids.len() - 1);
            self.kids_count_is_fair(a, id, rest);
            self.count_is_fair(a, kid as int);
            let x = self.members_below(a, id, rest);
            let y = self.members(a, kid as int);
            assert forall|n: NodeId| #[trigger] x.contains(n) implies both.contains(n)
                && !y.contains(n) by {
                let c = self.trie.ancestor(n as int, d + 1) as usize;
                let i = choose|i: int| 0 <= i < rest.len() && rest[i] == c;
                assert(kids[i] == c);
                assert(all[i] == c);
                self.trie.ancestors_hang(n as int, d);
            }
            assert forall|n: NodeId| #[trigger] y.contains(n) implies both.contains(n) by {
                assert(kids[kids.len() - 1] == kid);
            }
            assert(x.disjoint(y));
            assert((x + y).subset_of(both));
            assert(y.finite()) by {
                vstd::set_lib::lemma_set_subset_finite(both, y);
            }
            vstd::set_lib::lemma_set_disjoint_lens(x, y);
            vstd::set_lib::lemma_len_subset(x + y, both);
        }
    }
}

/// The plan is the best one. Where a placement pays as soon as its savings exceed
/// its cost, no set of at most as many cache points as a request may have nets
/// more than the plan does, but for the rounding of each savings rate. Here a set
/// is credited with savings on traffic that arrives: `excess` is what it would
/// count twice where estimates put more traffic below a node than at it, and is
/// zero where they do not. For estimates from observed requests it is rounding
/// alone ([`excess_is_bounded`](crate::plan::excess::excess_is_bounded)).
pub proof fn plan_is_best(ask: Ask<Fixed>, a: Set<NodeId>, bound: int)
    requires
        ask.in_range(ask.prices.max_breakpoints as nat, bound),
        ask.plain(),
        ask.prices.regime() != Regime::ShapeOnly,
        ask.may_place(a),
        a.finite(),
        a.len() <= ask.prices.max_breakpoints,
    ensures
        ({
            let k = ask.prices.max_breakpoints as int;
            fine(ask.tally(a, 0).net) <= fine(nets(ask.chosen())) + ask.tally(a, 0).excess
                + ask.slop(k * (k + 2))
        }),
        ask.tally(a, 0).excess == 0 ==> {
            let k = ask.prices.max_breakpoints as int;
            ask.tally(a, 0).net <= nets(ask.chosen()) + k * (k + 2) * (2 + ask.spread() / (
            ONE as int))
        },
{
    let k = ask.prices.max_breakpoints as nat;
    let t = ask.tally(a, 0);
    let c = t.count as int;
    let entries = ask.solved(0, k, 0);
    ask.ranged(k, bound);
    ask.ranged_at(0, k, bound);
    ask.count_is_fair(a, 0);
    assert(ask.members(a, 0).subset_of(a));
    vstd::set_lib::lemma_len_subset(ask.members(a, 0), a);
    ask.solved_is_fair(0, k, 0, bound);
    ask.tally_is_added(a, 0, k, 0, bound);
    let j = ask.solved_reaches(a, 0, k, 0, bound);
    top_ranked_is_top(entries, entries.len());
    let best = entries[top_ranked(entries, entries.len())];
    assert(entries[j].value.rank() <= best.value.rank());
    assert(ask.fair(best, top_ranked(entries, entries.len()), 0, bound));
    ask.full_adds(0, 0, best.covered.units as int, 0);
    ask.full_adds(0, 0, t.cover, 0);
    let n = best.picks.len() as int;
    assert(c * k <= k * k) by (nonlinear_arith)
        requires
            0 <= c <= k,
    ;
    assert(k * (k + 2) == k * k + 2 * k) by (nonlinear_arith);
    ask.slop_adds(c * k, k * k - c * k);
    ask.slop_adds(c, k - c);
    ask.slop_adds(n, k - n);
    ask.slop_adds(k as int, k as int);
    ask.slop_adds((k * k) as int, (k + k) as int);
    assert(ask.loss(t.count, k) == ask.slop(c * k)) by {
        reveal(Ask::<Fixed>::loss);
    }
    if k == 0 {
        assert(best.picks =~= ask.chosen());
    }
    let m = k * (k + 2);
    let d = ask.spread();
    let w = 2 + d / (ONE as int);
    assert(ask.slop(m as int) <= fine(m * w)) by {
        reveal(Ask::<Fixed>::slop);
        assert(m * ask.grain() <= m * fine(w)) by (nonlinear_arith)
            requires
                0 <= m,
                ask.grain() <= fine(w),
        ;
        assert(m * (1_000_000_000_000_000_000 * w) == 1_000_000_000_000_000_000 * (m * w))
            by (nonlinear_arith);
    }
}

/// The nodes that a plan places.
pub open spec fn placed_nodes(picks: Seq<Placement<Fixed>>) -> Set<NodeId> {
    picks.map_values(|p: Placement<Fixed>| p.node).to_set()
}

/// A node is placed where some placement names it.
proof fn placed_is_named(picks: Seq<Placement<Fixed>>, x: NodeId)
    ensures
        placed_nodes(picks).contains(x) <==> exists|i: int|
            0 <= i < picks.len() && (#[trigger] picks[i]).node == x,
{
    let nodes = picks.map_values(|p: Placement<Fixed>| p.node);
    if placed_nodes(picks).contains(x) {
        let i = choose|i: int| 0 <= i < nodes.len() && nodes[i] == x;
        assert(picks[i].node == x);
    }
    if exists|i: int| 0 <= i < picks.len() && (#[trigger] picks[i]).node == x {
        let i = choose|i: int| 0 <= i < picks.len() && (#[trigger] picks[i]).node == x;
        assert(nodes[i] == x);
        assert(nodes.contains(x));
    }
}

impl Ask<Fixed> {
    /// Whether `x` lies at or below `id`.
    spec fn under(self, x: NodeId, id: int) -> bool {
        let d = self.trie.nodes[id].depth_blocks;
        &&& self.trie.live(x as int)
        &&& self.trie.nodes[x as int].depth_blocks >= d
        &&& self.trie.ancestor(x as int, d as int) == id
    }

    /// Whether `x` lies at or below one of `kids`, children of `id`.
    spec fn under_kids(self, x: NodeId, id: int, kids: Seq<NodeId>) -> bool {
        let d = self.trie.nodes[id].depth_blocks;
        &&& self.trie.live(x as int)
        &&& self.trie.nodes[x as int].depth_blocks > d
        &&& kids.contains(self.trie.ancestor(x as int, d + 1) as usize)
    }

    /// Whether `a` holds what `picks` place at or below `id`.
    spec fn agrees(self, a: Set<NodeId>, picks: Seq<Placement<Fixed>>, id: int) -> bool {
        forall|x: NodeId| #[trigger]
            self.under(x, id) ==> (a.contains(x) <==> placed_nodes(picks).contains(x))
    }

    spec fn agrees_below(
        self,
        a: Set<NodeId>,
        picks: Seq<Placement<Fixed>>,
        id: int,
        kids: Seq<NodeId>,
    ) -> bool {
        forall|x: NodeId| #[trigger]
            self.under_kids(x, id, kids) ==> (a.contains(x) <==> placed_nodes(picks).contains(x))
    }

    /// Whether a tally is what an entry says.
    spec fn tallies(self, t: Tally, e: Best<Fixed>) -> bool {
        &&& t.count == e.picks.len()
        &&& t.cover == e.covered.units
        &&& t.net == nets(e.picks)
    }

    /// A best split is one of the splits: what it places and covers is what its
    /// two halves do.
    proof fn split_is_one(
        self,
        acc: Seq<Best<Fixed>>,
        ch: Seq<Best<Fixed>>,
        m: int,
        n: nat,
        up: u64,
        k: nat,
        bound: int,
    ) -> (i: int)
        requires
            self.in_range(k, bound),
            0 <= m <= k,
            n <= m + 1,
            acc.len() == k + 1,
            ch.len() == k + 1,
            forall|i: int| 0 <= i <= k ==> self.fair(#[trigger] acc[i], i, up, bound),
            forall|i: int| 0 <= i <= k ==> self.fair(#[trigger] ch[i], i, up, bound),
        ensures
            0 <= i <= m,
            ({
                let e = best_split(acc, ch, m, n);
                &&& e.picks == acc[i].picks + ch[m - i].picks
                &&& e.covered.units == acc[i].covered.units + ch[m - i].covered.units
            }),
        decreases n,
    {
        if n == 0 {
            assert(self.fair(ch[0], 0, up, bound));
            assert(0 * bound == 0);
            assert(acc[m].picks + ch[0].picks =~= acc[m].picks);
            m
        } else {
            let j = self.split_is_one(acc, ch, m, (n - 1) as nat, up, k, bound);
            let i = n - 1;
            assert(self.fair(acc[i], i, up, bound));
            assert(self.fair(ch[m - i], m - i, up, bound));
            self.and_is_fair(acc[i], ch[m - i], i, m - i, up, k, bound);
            if best_split(acc, ch, m, (n - 1) as nat).value.below(acc[i].and(ch[m - i]).value) {
                i
            } else {
                j
            }
        }
    }

    /// What an entry reports is what its placements come to.
    #[verifier::rlimit(60)]
    proof fn solved_tallies(
        self,
        a: Set<NodeId>,
        id: int,
        k: nat,
        up: u64,
        kk: int,
        bound: int,
    )
        requires
            self.in_range(k, bound),
            self.trie.live(id),
            up <= self.trie.tokens(id),
            0 <= kk <= k,
            self.agrees(a, self.solved(id, k, up)[kk].picks, id),
        ensures
            self.tallies(self.tally(a, id), self.solved(id, k, up)[kk]),
        decreases self.room_below(id), 1int, 0nat,
    {
        let kids = self.trie.children_sorted(id);
        let t = self.trie.tokens(id) as u64;
        let d = self.trie.nodes[id].depth_blocks as int;
        self.ranged(k, bound);
        self.ranged_at(id, k, bound);
        self.is_sized(k, bound);
        self.kids_are_distinct(id);
        assert(kids =~= kids.take(kids.len() as int));
        self.solved_kids_is_fair(id, kids, k, up, bound);
        self.solved_kids_is_fair(id, kids, k, t, bound);
        self.solved_kids_is_sane(id, kids, k, up);
        self.solved_kids_is_sane(id, kids, k, t);
        let flat = self.solved_kids(id, kids, k, up);
        let tables = self.solved_kids(id, kids, k, t);
        let e = self.solved(id, k, up)[kk];
        let me = id as usize;
        assert(self.under(me, id));
        assert forall|x: NodeId| #[trigger] self.under_kids(x, id, kids) implies self.under(x, id)
            && x != me by {
            self.trie.ancestors_hang(x as int, d);
            let c = self.trie.ancestor(x as int, d + 1);
            let y = choose|y: int| 0 <= y < kids.len() && kids[y] == c as usize;
            self.trie.sorted_child_hangs(id, y);
            self.trie.ancestor_is_live(x as int, d);
        }
        if e == flat[kk] {
            assert(self.sane_in_kids(flat[kk], kk, k, id, kids));
            placed_is_named(e.picks, me);
            assert forall|i: int| 0 <= i < e.picks.len() implies (#[trigger] e.picks[i]).node
                != me by {
                assert(self.below_kids(e.picks[i], id, kids));
            }
            assert(!a.contains(me));
            self.kids_tally(a, id, kids, k, up, kk, bound);
        } else {
            let base = tables[kk - 1];
            assert(self.fair(base, kk - 1, t, bound));
            self.topped_is_fair(id, base, kk, up, k, bound);
            assert(Some(e) == self.topped(id, base, up));
            let last = e.picks.len() - 1;
            assert(e.picks[last].node == me);
            placed_is_named(e.picks, me);
            assert(a.contains(me));
            assert(self.agrees_below(a, base.picks, id, kids)) by {
                assert forall|x: NodeId| #[trigger] self.under_kids(x, id, kids) implies (
                a.contains(x) <==> placed_nodes(base.picks).contains(x)) by {
                    assert(self.under(x, id));
                    placed_is_named(base.picks, x);
                    placed_is_named(e.picks, x);
                    if placed_nodes(e.picks).contains(x) {
                        let i = choose|i: int|
                            0 <= i < e.picks.len() && (#[trigger] e.picks[i]).node == x;
                        assert(i != last);
                        assert(base.picks[i].node == x);
                    }
                    if placed_nodes(base.picks).contains(x) {
                        let i = choose|i: int|
                            0 <= i < base.picks.len() && (#[trigger] base.picks[i]).node == x;
                        assert(e.picks[i].node == x);
                    }
                }
            }
            self.kids_tally(a, id, kids, k, t, kk - 1, bound);
            let cov = base.covered.units as int;
            self.bound_times(base.picks.len(), 0, k, bound);
            self.node_sums(id, up, cov, k, bound);
            assert(self.rate(id).diff(base.covered).larger(Fixed::int_of(0)) == self.left(id, cov));
            assert(e.picks.drop_last() =~= base.picks);
            assert(self.net_over(id, cov) == e.picks.last().net_per_hour.units) by {
                reveal(Ask::<Fixed>::net_over);
            }
        }
    }

    #[verifier::rlimit(60)]
    proof fn kids_tally(
        self,
        a: Set<NodeId>,
        id: int,
        kids: Seq<NodeId>,
        k: nat,
        up: u64,
        kk: int,
        bound: int,
    )
        requires
            self.in_range(k, bound),
            self.trie.live(id),
            up <= self.trie.tokens(id),
            0 <= kk <= k,
            kids.len() <= self.trie.children_sorted(id).len(),
            kids == self.trie.children_sorted(id).take(kids.len() as int),
            self.agrees_below(a, self.solved_kids(id, kids, k, up)[kk].picks, id, kids),
        ensures
            self.tallies(self.tally_kids(a, id, kids), self.solved_kids(id, kids, k, up)[kk]),
        decreases self.room_below(id), 0int, kids.len(),
    {
        self.ranged(k, bound);
        self.is_sized(k, bound);
        if kids.len() > 0 {
            let all = self.trie.children_sorted(id);
            let d = self.trie.nodes[id].depth_blocks as int;
            let rest = kids.drop_last();
            let kid = kids.last();
            self.kids_are_distinct(id);
            assert(kid == all[kids.len() - 1]);
            assert(rest =~= all.take(rest.len() as int));
            self.trie.sorted_child_hangs(id, kids.len() - 1);
            self.trie.child_is_longer(id, kid as int);
            self.solved_kids_is_fair(id, rest, k, up, bound);
            self.solved_is_fair(kid as int, k, up, bound);
            self.solved_kids_is_sane(id, rest, k, up);
            self.solved_is_sane(kid as int, k, up);
            let (acc, ch) = (self.solved_kids(id, rest, k, up), self.solved(kid as int, k, up));
            let e = self.solved_kids(id, kids, k, up)[kk];
            assert(e == best_split(acc, ch, kk, (kk + 1) as nat));
            let i = self.split_is_one(acc, ch, kk, (kk + 1) as nat, up, k, bound);
            let (x, y) = (acc[i], ch[kk - i]);
            assert(self.sane_in_kids(x, i, k, id, rest));
            assert(self.sane_in_subtree(y, kk - i, k, kid as int));
            if rest.contains(kid) {
                let z = choose|z: int| 0 <= z < rest.len() && rest[z] == kid;
                assert(all[z] == all[kids.len() - 1]);
            }
            assert(self.agrees_below(a, x.picks, id, rest)) by {
                assert forall|n: NodeId| #[trigger] self.under_kids(n, id, rest) implies (
                a.contains(n) <==> placed_nodes(x.picks).contains(n)) by {
                    let c = self.trie.ancestor(n as int, d + 1) as usize;
                    let z = choose|z: int| 0 <= z < rest.len() && rest[z] == c;
                    assert(kids[z] == c);
                    assert(self.under_kids(n, id, kids));
                    self.placed_in_either(x, y, e, n);
                    placed_is_named(y.picks, n);
                    self.trie.ancestors_hang(n as int, d);
                    assert forall|j: int| 0 <= j < y.picks.len() implies (#[trigger] y.picks[j]).node
                        != n by {
                        assert(self.at_or_below(y.picks[j], kid as int));
                    }
                }
            }
            assert(self.agrees(a, y.picks, kid as int)) by {
                assert forall|n: NodeId| #[trigger] self.under(n, kid as int) implies (a.contains(n)
                    <==> placed_nodes(y.picks).contains(n)) by {
                    assert(kids[kids.len() - 1] == kid);
                    assert(self.under_kids(n, id, kids));
                    self.placed_in_either(x, y, e, n);
                    placed_is_named(x.picks, n);
                    assert forall|j: int| 0 <= j < x.picks.len() implies (#[trigger] x.picks[j]).node
                        != n by {
                        assert(self.below_kids(x.picks[j], id, rest));
                    }
                }
            }
            self.kids_tally(a, id, rest, k, up, i, bound);
            self.solved_tallies(a, kid as int, k, up, kk - i, bound);
            nets_add(x.picks, y.picks);
        }
    }

    proof fn placed_in_either(
        self,
        x: Best<Fixed>,
        y: Best<Fixed>,
        e: Best<Fixed>,
        n: NodeId,
    )
        requires
            e.picks == x.picks + y.picks,
        ensures
            placed_nodes(e.picks).contains(n) <==> placed_nodes(x.picks).contains(n)
                || placed_nodes(y.picks).contains(n),
    {
        placed_is_named(x.picks, n);
        placed_is_named(y.picks, n);
        placed_is_named(e.picks, n);
        let m = x.picks.len() as int;
        if placed_nodes(e.picks).contains(n) {
            let i = choose|i: int| 0 <= i < e.picks.len() && (#[trigger] e.picks[i]).node == n;
            if i < m {
                assert(x.picks[i].node == n);
            } else {
                assert(y.picks[i - m].node == n);
            }
        }
        if placed_nodes(x.picks).contains(n) {
            let i = choose|i: int| 0 <= i < x.picks.len() && (#[trigger] x.picks[i]).node == n;
            assert(e.picks[i].node == n);
        }
        if placed_nodes(y.picks).contains(n) {
            let i = choose|i: int| 0 <= i < y.picks.len() && (#[trigger] y.picks[i]).node == n;
            assert(e.picks[i + m].node == n);
        }
    }

    proof fn is_sized(self, k: nat, bound: int)
        requires
            self.in_range(k, bound),
        ensures
            self.trie.sized(),
    {
        assert forall|id: int| #[trigger] self.trie.live(id) implies self.trie.tokens(id)
            <= u64::MAX by {
            self.ranged_at(id, k, bound);
        }
    }
}

/// The plan is worth what it says: its placements together net what they report
/// one by one.
pub proof fn plan_nets_what_it_says(ask: Ask<Fixed>, bound: int)
    requires
        ask.in_range(ask.prices.max_breakpoints as nat, bound),
        ask.prices.regime() != Regime::ShapeOnly,
    ensures
        ask.tally(placed_nodes(ask.chosen()), 0).count == ask.chosen().len(),
        ask.tally(placed_nodes(ask.chosen()), 0).net == nets(ask.chosen()),
{
    let k = ask.prices.max_breakpoints as nat;
    let entries = ask.solved(0, k, 0);
    ask.ranged(k, bound);
    ask.ranged_at(0, k, bound);
    ask.solved_is_fair(0, k, 0, bound);
    top_ranked_is_top(entries, entries.len());
    let best = top_ranked(entries, entries.len());
    assert(ask.fair(entries[best], best, 0, bound));
    if k == 0 {
        assert(entries[best].picks =~= ask.chosen());
    }
    ask.solved_tallies(placed_nodes(ask.chosen()), 0, k, 0, best, bound);
}

} // verus!
