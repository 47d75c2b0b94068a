//! What a tick does, told by the state before it, in billionths.
use vstd::prelude::*;

use crate::engine::laws::node_of;
use crate::engine::model::{EngineModel, Pass};
use crate::engine::Action;
use crate::fixed::Fixed;
use crate::number::{frac, Real};
use crate::total::{total_grows, total_of};
use crate::trie::{CacheState, NodeId, NodeModel};

verus! {

impl<R: Real> EngineModel<R> {
    /// Whether the requests of the cache at `b` would read the one at `id` if it
    /// were not there: `id` lies above `b`, with no cache between them.
    pub open spec fn stands_in(self, b: int, id: int) -> bool {
        &&& self.trie.lies_under(b, id)
        &&& b != id
        &&& self.trie.nodes[b].state is Cached
        &&& forall|x: int| #[trigger]
            self.trie.lies_under(b, x) && self.trie.lies_under(x, id) && x != b && x != id
                ==> !(self.trie.nodes[x].state is Cached)
    }

    /// The nearest cache above a node is one, with none between.
    #[verifier::rlimit(60)]
    proof fn nearest_is_near(self, b: int, id: NodeId)
        requires
            self.trie.wf(),
            self.trie.live(b),
            self.nearest_cached(b) == Some(id),
        ensures
            self.trie.live(id as int),
            self.trie.nodes[id as int].state is Cached,
            self.trie.lies_under(b, id as int),
            b != id,
            forall|x: int| #[trigger]
                self.trie.lies_under(b, x) && self.trie.lies_under(x, id as int) && x != b && x
                    != id ==> !(self.trie.nodes[x].state is Cached),
        decreases self.trie.nodes[b].depth_blocks,
    {
        let t = self.trie;
        if b == 0 {
            assert(t.nodes[0].parent is None);
        } else {
            assert(t.hangs(b));
            let p = t.nodes[b].parent->0 as int;
            let d = t.nodes[id as int].depth_blocks as int;
            if t.nodes[p].state is Cached {
                assert(id == p);
                assert(t.ancestor(p, t.nodes[p].depth_blocks as int) == p);
                assert(t.ancestor(b, t.nodes[p].depth_blocks as int) == p);
            } else {
                self.nearest_is_near(p, id);
                assert(t.ancestor(b, d) == t.ancestor(p, d));
            }
            assert forall|x: int| #[trigger]
                t.lies_under(b, x) && t.lies_under(x, id as int) && x != b && x != id implies !(
            t.nodes[x].state is Cached) by {
                let dx = t.nodes[x].depth_blocks as int;
                if dx == t.nodes[b].depth_blocks {
                    assert(t.ancestor(b, dx) == b);
                } else {
                    assert(t.ancestor(b, dx) == t.ancestor(p, dx));
                    assert(t.lies_under(p, x));
                    if x == p {
                        if t.nodes[p].state is Cached {
                            assert(id == p);
                        }
                    } else if t.nodes[p].state is Cached {
                        assert(id == p);
                        assert(dx >= t.nodes[p].depth_blocks);
                        assert(t.ancestor(p, dx) == p);
                    }
                }
            }
        }
    }

    /// A cache above a node with none between is the nearest.
    #[verifier::rlimit(60)]
    proof fn near_is_nearest(self, b: int, id: NodeId)
        requires
            self.trie.wf(),
            self.trie.live(b),
            self.trie.live(id as int),
            self.trie.nodes[id as int].state is Cached,
            self.trie.lies_under(b, id as int),
            b != id,
            forall|x: int| #[trigger]
                self.trie.lies_under(b, x) && self.trie.lies_under(x, id as int) && x != b && x
                    != id ==> !(self.trie.nodes[x].state is Cached),
        ensures
            self.nearest_cached(b) == Some(id),
        decreases self.trie.nodes[b].depth_blocks,
    {
        let t = self.trie;
        let d = t.nodes[id as int].depth_blocks as int;
        if t.nodes[b].depth_blocks == d {
            assert(t.ancestor(b, d) == b);
        }
        assert(b != 0);
        assert(t.hangs(b));
        let p = t.nodes[b].parent->0 as int;
        assert(t.ancestor(b, d) == t.ancestor(p, d));
        assert(t.lies_under(p, id as int));
        let dp = t.nodes[p].depth_blocks as int;
        assert(t.ancestor(p, dp) == p);
        assert(t.ancestor(b, dp) == p);
        assert(t.lies_under(b, p));
        if p != id {
            assert(!(t.nodes[p].state is Cached));
            assert forall|x: int| #[trigger]
                t.lies_under(p, x) && t.lies_under(x, id as int) && x != p && x != id implies !(
            t.nodes[x].state is Cached) by {
                let dx = t.nodes[x].depth_blocks as int;
                assert(t.ancestor(b, dx) == t.ancestor(p, dx));
                assert(t.lies_under(b, x));
            }
            self.near_is_nearest(p, id);
        }
    }

    /// The nearest cache above a node is told by the links and by which nodes
    /// hold a cache.
    proof fn same_nearest(self, e: Self, b: int)
        requires
            self.trie.wf(),
            self.trie.live(b),
            e.trie.nodes.len() == self.trie.nodes.len(),
            forall|x: int|
                0 <= x < self.trie.nodes.len() ==> {
                    let (n, m) = (self.trie.nodes[x], #[trigger] e.trie.nodes[x]);
                    &&& m.parent == n.parent
                    &&& m.depth_blocks == n.depth_blocks
                    &&& m.state is Cached == n.state is Cached
                },
        ensures
            e.nearest_cached(b) == self.nearest_cached(b),
        decreases self.trie.nodes[b].depth_blocks,
    {
        assert(e.trie.nodes[b].parent == self.trie.nodes[b].parent);
        if b != 0 {
            assert(self.trie.hangs(b));
            let p = self.trie.nodes[b].parent->0 as int;
            assert(e.trie.nodes[p].depth_blocks == self.trie.nodes[p].depth_blocks);
            self.same_nearest(e, p);
        }
    }
}

impl EngineModel<Fixed> {
    /// The arrival rate at `id`, in billionths.
    pub open spec fn arrivals(self, id: int, now: Fixed) -> int {
        self.trie.nodes[id].stats.decayed_lambda(now, self.cfg.tau_decay_hours).units as int
    }

    /// The arrival rate of the caches that stand in for `id`.
    pub open spec fn served_below(self, id: int, now: Fixed, upto: nat) -> int {
        total_of(
            upto,
            |b: int|
                if self.stands_in(b, id) {
                    self.arrivals(b, now)
                } else {
                    0
                },
        )
    }

    /// Whether deeper caches leave the one at `id` too little: there are some, and
    /// what arrives beyond what they serve brings less than `1 + create_margin`
    /// requests within the hold time.
    pub open spec fn outgrown(self, id: int, now: Fixed) -> bool {
        let own = self.arrivals(id, now) - self.served_below(id, now, self.trie.nodes.len());
        &&& exists|b: int| self.stands_in(b, id)
        &&& (if own > 0 {
            own
        } else {
            0
        }) * self.prices.tau_hold()->0.units < 1_000_000_000 * (1_000_000_000
            + self.cfg.create_margin.units)
    }

    /// What deeper caches take, added up.
    #[verifier::rlimit(60)]
    proof fn covered_adds_up(self, id: NodeId, upto: nat, now: Fixed)
        requires
            self.wf(),
            upto <= self.trie.nodes.len(),
            self.trie.live(id as int),
            self.trie.nodes[id as int].state is Cached,
            forall|b: int|
                #![trigger self.trie.nodes[b]]
                self.stands_in(b, id as int) ==> 0 <= self.arrivals(b, now),
            self.served_below(id as int, now, self.trie.nodes.len()) <= i64::MAX,
        ensures
            0 <= self.served_below(id as int, now, upto) <= self.served_below(
                id as int,
                now,
                self.trie.nodes.len(),
            ),
            match self.covered(id, upto, now) {
                Some(r) => {
                    &&& r.units == self.served_below(id as int, now, upto)
                    &&& exists|b: int| 0 <= b < upto && self.stands_in(b, id as int)
                },
                None => {
                    &&& self.served_below(id as int, now, upto) == 0
                    &&& forall|b: int| 0 <= b < upto ==> !self.stands_in(b, id as int)
                },
            },
        decreases upto,
    {
        let n = self.trie.nodes.len();
        let f = |b: int|
            if self.stands_in(b, id as int) {
                self.arrivals(b, now)
            } else {
                0
            };
        assert forall|b: int| 0 <= b < n implies 0 <= #[trigger] f(b) by {
            assert(self.trie.nodes[b] == self.trie.nodes[b]);
        }
        total_grows(upto, n, f);
        if upto > 0 {
            let k = (upto - 1) as nat;
            let b = k as int;
            self.covered_adds_up(id, k, now);
            total_grows(k, upto, f);
            let takes = self.trie.nodes[b].state is Cached && self.nearest_cached(b) == Some(id);
            assert(takes == self.stands_in(b, id as int)) by {
                if self.trie.nodes[b].state is Cached {
                    assert(self.trie.live(b));
                    if takes {
                        self.nearest_is_near(b, id);
                    }
                    if self.stands_in(b, id as int) {
                        self.near_is_nearest(b, id);
                    }
                }
            }
            if takes {
                assert(self.stands_in(b, id as int));
                assert(self.rate(self.trie.nodes[b], now).units == self.arrivals(b, now));
            }
            if let Some(r) = self.covered(id, k, now) {
                let x = choose|x: int| 0 <= x < k && self.stands_in(x, id as int);
                assert(0 <= x < upto);
            }
        }
    }
}

impl EngineModel<Fixed> {
    /// A tick retires a cache exactly where deeper ones have outgrown it.
    #[verifier::rlimit(60)]
    proof fn retires_what_is_outgrown(self, now: Fixed, id: int)
        requires
            self.wf(),
            0 <= id < self.trie.nodes.len(),
            self.prices.tau_hold() is Some,
            self.trie.nodes[id].state is Cached,
            0 <= self.cfg.create_margin.units <= i64::MAX - 1_000_000_000,
            0 <= self.arrivals(id, now),
            forall|b: int|
                #![trigger self.trie.nodes[b]]
                self.stands_in(b, id) ==> 0 <= self.arrivals(b, now),
            self.served_below(id, now, self.trie.nodes.len()) <= i64::MAX,
        ensures
            self.passed(Pass::Timeouts, now).retire_step(id, now) is Retire <==> self.outgrown(
                id,
                now,
            ),
    {
        let n = self.trie.nodes.len();
        self.pass_is_wf(Pass::Timeouts, now);
        self.pass_is_pointwise(Pass::Timeouts, now);
        let a = self.passed(Pass::Timeouts, now);
        assert forall|x: int| 0 <= x < n implies ({
            let (p, q) = (self.trie.nodes[x], #[trigger] a.trie.nodes[x]);
            &&& q.parent == p.parent
            &&& q.depth_blocks == p.depth_blocks
            &&& q.stats == p.stats
            &&& q.state is Cached == p.state is Cached
        }) by {
            assert(a.trie.nodes[x] == self.step(Pass::Timeouts, x, now).node(self.trie.nodes[x]));
        }
        self.same_cover(a, id as usize, n, now);
        assert(self.trie.live(id));
        self.covered_adds_up(id as usize, n, now);
        if let Some(sub) = self.covered(id as usize, n, now) {
            let own = self.arrivals(id, now) - sub.units;
            let tau = self.prices.tau_hold()->0.units as int;
            let left = a.rate(a.trie.nodes[id], now).diff(sub).larger(Fixed::int_of(0));
            assert(left.units == if own > 0 {
                own
            } else {
                0
            });
            let need = 1_000_000_000 + self.cfg.create_margin.units;
            let v = left.units * tau;
            assert(Fixed::int_of(1).sum(self.cfg.create_margin).units == need);
            assert(v / 1_000_000_000 < need <==> v < 1_000_000_000 * need);
        } else {
            assert forall|b: int| !self.stands_in(b, id) by {
                if self.stands_in(b, id) {
                    assert(self.trie.live(b));
                }
            }
        }
    }

    proof fn same_cover(self, e: Self, id: NodeId, upto: nat, now: Fixed)
        requires
            self.wf(),
            e.cfg == self.cfg,
            upto <= self.trie.nodes.len(),
            e.trie.nodes.len() == self.trie.nodes.len(),
            forall|x: int|
                0 <= x < self.trie.nodes.len() ==> {
                    let (n, m) = (self.trie.nodes[x], #[trigger] e.trie.nodes[x]);
                    &&& m.parent == n.parent
                    &&& m.depth_blocks == n.depth_blocks
                    &&& m.stats == n.stats
                    &&& m.state is Cached == n.state is Cached
                },
        ensures
            e.covered(id, upto, now) == self.covered(id, upto, now),
        decreases upto,
    {
        if upto > 0 {
            let b = upto - 1;
            self.same_cover(e, id, (upto - 1) as nat, now);
            assert(e.trie.nodes[b].stats == self.trie.nodes[b].stats);
            if self.trie.nodes[b].state is Cached {
                assert(self.trie.live(b));
                self.same_nearest(e, b);
            }
        }
    }

    /// The time until which the cache at `id` is held: the hold time from its last
    /// request, or from its creation where it was made ahead of one; longer where
    /// a longer hold was learned, up to the longest worth paying for.
    pub open spec fn held_until(self, id: int) -> int {
        let n = self.trie.nodes[id];
        let tau = self.prices.tau_hold()->0.units as int;
        let longest = self.prices.tau_effective()->0.units as int;
        let from = if n.ahead && n.last_flip.units > n.stats.t_last.units {
            n.last_flip.units as int
        } else {
            n.stats.t_last.units as int
        };
        let learned = if n.hold_hint.units < longest {
            n.hold_hint.units as int
        } else {
            longest
        };
        from + if learned > tau {
            learned
        } else {
            tau
        }
    }

    /// Whether most gaps between the requests of `id` are known to outlast the
    /// hold time.
    pub open spec fn rarely_hit(self, id: int) -> bool {
        let s = self.trie.nodes[id].stats;
        &&& s.samples.units >= self.cfg.confidence_samples.units
        &&& s.gap_fraction_gt(self.prices.tau_hold()->0).units > 500_000_000
    }

    /// Numbers of the cache at `id` that stay in range.
    pub open spec fn cache_in_range(self, now: Fixed, id: int) -> bool {
        &&& 0 <= self.cfg.create_margin.units <= i64::MAX - 1_000_000_000
        &&& 0 <= self.arrivals(id, now)
        &&& forall|b: int|
            #![trigger self.trie.nodes[b]]
            self.stands_in(b, id) ==> 0 <= self.arrivals(b, now)
        &&& self.served_below(id, now, self.trie.nodes.len()) <= i64::MAX
        &&& i64::MIN <= self.held_until(id) <= i64::MAX
        &&& 0 <= now.units
    }

    /// What becomes of a cache at a tick. It is deleted where deeper caches have
    /// outgrown it, its hold is over, or most gaps are known to outlast the hold.
    /// Otherwise it is given up where it had expired; extended to the end of its
    /// hold where it would expire before that, and within the lead; and else left
    /// as it was. Nothing else is said of it.
    #[verifier::rlimit(60)]
    pub proof fn tick_decides_on_cache(self, now: Fixed, id: int)
        requires
            self.wf(),
            0 <= id < self.trie.nodes.len(),
            self.prices.storage_per_mtok_hour is Some,
            self.trie.nodes[id].state is Cached,
            self.cache_in_range(now, id),
        ensures
            ({
                let n = self.trie.nodes[id];
                let (e, said) = self.ticked(now);
                let m = e.trie.nodes[id];
                let until = self.held_until(id);
                let expires = n.state->expires_at_hours.units;
                if self.outgrown(id, now) {
                    &&& said.contains(Action::Delete { node: id as usize })
                    &&& m.state is Uncached
                    &&& m.last_flip == now
                    &&& m.last_delete == n.last_delete
                } else if until <= now.units || self.rarely_hit(id) {
                    &&& said.contains(Action::Delete { node: id as usize })
                    &&& m.state is Uncached
                    &&& m.last_flip == now
                    &&& m.last_delete == now
                } else if expires <= now.units {
                    &&& m.state is Uncached
                    &&& m.last_flip == now
                    &&& m.last_delete == n.last_delete
                    &&& forall|a: Action<Fixed>| #[trigger] said.contains(a) ==> node_of(a) != id
                } else if expires + 1 < until && expires - now.units
                    <= self.cfg.extend_lead_hours.units {
                    &&& said.contains(
                        Action::Extend {
                            node: id as usize,
                            expires_at_hours: Fixed { units: until as i64 },
                        },
                    )
                    &&& m.state == CacheState::Cached {
                        expires_at_hours: Fixed { units: until as i64 },
                        ttl_hours: n.state->ttl_hours,
                    }
                    &&& m.last_flip == n.last_flip
                } else {
                    &&& m.state == n.state
                    &&& m.last_flip == n.last_flip
                    &&& m.last_delete == n.last_delete
                    &&& forall|a: Action<Fixed>| #[trigger] said.contains(a) ==> node_of(a) != id
                }
            }),
    {
        self.retires_what_is_outgrown(now, id);
        self.tick_node_by_node(now);
        assert(self.tick_fits(now, id));
        let n = self.trie.nodes[id];
        let until = self.held_until(id);
        assert(self.hold_until(n).units == until);
        assert(Fixed::int_of(2).units == 2_000_000_000 && Fixed::int_of(1).units == 1_000_000_000);
        assert(frac::<Fixed>(1, 2).units == 500_000_000);
        assert(Fixed::int_of(1_000_000_000).units == 1_000_000_000_000_000_000);
        assert(frac::<Fixed>(1, 1_000_000_000).units == 1);
        assert(self.mostly_idle(n) == self.rarely_hit(id));
        let expires = n.state->expires_at_hours;
        assert(expires.units > now.units ==> expires.diff(now).units == expires.units - now.units);
    }

    /// What becomes of a create in flight at a tick: it is given up once it has
    /// gone unconfirmed for longer than the timeout, and else left as it was. The
    /// adapter is told nothing.
    pub proof fn tick_decides_on_create_in_flight(self, now: Fixed, id: int)
        requires
            self.wf(),
            0 <= id < self.trie.nodes.len(),
            self.trie.nodes[id].state is Pending,
            0 <= self.trie.nodes[id].state->since_hours.units,
            0 <= now.units,
            0 <= self.cfg.pending_timeout_hours.units,
        ensures
            ({
                let n = self.trie.nodes[id];
                let (e, said) = self.ticked(now);
                let m = e.trie.nodes[id];
                let age = now.units - n.state->since_hours.units;
                &&& if age > self.cfg.pending_timeout_hours.units {
                    m.state is Uncached && m.last_flip == now
                } else {
                    m.state == n.state && m.last_flip == n.last_flip
                }
                &&& m.last_delete == n.last_delete
                &&& forall|a: Action<Fixed>| #[trigger] said.contains(a) ==> node_of(a) != id
            }),
    {
        self.tick_node_by_node(now);
        assert(self.tick_fits(now, id));
    }
}

/// A quotient of a number by a whole one.
proof fn divided(a: Fixed, n: u64)
    requires
        1 <= n <= 9_000_000_000,
    ensures
        a.quot(Fixed::int_of(n)).units == a.units as int / n as int,
{
    let b = Fixed::int_of(n);
    assert(b.units == n * 1_000_000_000);
    let (x, y) = (a.units as int, n as int);
    vstd::arithmetic::div_mod::lemma_fundamental_div_mod(x, y);
    vstd::arithmetic::div_mod::lemma_mod_bound(x, y);
    let (q, r) = (x / y, x % y);
    assert(x * 1_000_000_000 == q * (y * 1_000_000_000) + r * 1_000_000_000) by (nonlinear_arith)
        requires
            x == y * q + r,
    ;
    vstd::arithmetic::div_mod::lemma_fundamental_div_mod_converse(
        x * 1_000_000_000,
        y * 1_000_000_000,
        q,
        r * 1_000_000_000,
    );
    assert(i64::MIN <= q <= i64::MAX) by (nonlinear_arith)
        requires
            x == y * q + r,
            0 <= r < y,
            1 <= y,
            -0x8000_0000_0000_0000 <= x <= 0x7fff_ffff_ffff_ffff,
    ;
}

impl EngineModel<Fixed> {
    /// The mean of the lulls of `id`.
    pub open spec fn usual_lull(self, id: int) -> int {
        self.trie.nodes[id].lulls.total.units as int / self.trie.nodes[id].lulls.count as int
    }

    /// Whether the lulls of `id` are regular: three or more, whose variance is at
    /// most a four-hundredth of the square of their mean, so that they vary by a
    /// twentieth of it.
    pub open spec fn lulls_are_regular(self, id: int) -> bool {
        let l = self.trie.nodes[id].lulls;
        let mean = self.usual_lull(id);
        &&& l.count >= 3
        &&& l.squares.units as int / l.count as int - (mean * mean) / 1_000_000_000
            <= ((2_500_000 * mean) / 1_000_000_000 * mean) / 1_000_000_000
    }

    /// Whether the next request of `id` is predicted to come now: within the lead
    /// before a usual lull after the last one is over.
    pub open spec fn is_due(self, id: int, now: Fixed) -> bool {
        let due = self.trie.nodes[id].stats.t_last.units + self.usual_lull(id);
        due - self.cfg.extend_lead_hours.units <= now.units <= due
    }

    /// What becomes of a prefix without a cache at a tick. A cache is created
    /// ahead exactly where its lulls are regular, it is due, it is long enough to
    /// cache, and it has dwelt since it was last flipped, before now.
    #[verifier::rlimit(60)]
    pub proof fn tick_decides_on_uncached(self, now: Fixed, id: int)
        requires
            self.wf(),
            0 <= id < self.trie.nodes.len(),
            self.prices.storage_per_mtok_hour is Some,
            self.trie.live(id),
            self.trie.nodes[id].state is Uncached,
            0 <= now.units,
            0 <= self.cfg.min_dwell_hours.units,
            0 <= self.cfg.extend_lead_hours.units,
            self.trie.nodes[id].lulls.count <= 9_000_000_000,
            0 <= self.trie.nodes[id].lulls.squares.units,
            0 <= self.trie.nodes[id].stats.t_last.units <= 0x3000_0000_0000_0000,
            self.trie.nodes[id].lulls.count > 0 ==> 0 <= self.usual_lull(id) <= 90_000_000_000_000,
        ensures
            ({
                let n = self.trie.nodes[id];
                let (e, said) = self.ticked(now);
                let m = e.trie.nodes[id];
                let tokens = n.depth_blocks * self.cfg.block_tokens;
                if self.lulls_are_regular(id) && self.is_due(id, now) && tokens
                    >= self.prices.min_cacheable_tokens && n.last_flip.units < now.units
                    && now.units - n.last_flip.units >= self.cfg.min_dwell_hours.units {
                    &&& said.contains(
                        Action::PreCreate {
                            node: id as usize,
                            tokens: tokens as u64,
                            ttl_hours: self.prices.tau_hold()->0,
                        },
                    )
                    &&& m.state == (CacheState::Pending { since_hours: now })
                    &&& m.last_flip == now
                    &&& m.ahead
                } else {
                    &&& m.state is Uncached
                    &&& m.last_flip == n.last_flip
                    &&& m.ahead == n.ahead
                    &&& forall|a: Action<Fixed>| #[trigger] said.contains(a) ==> node_of(a) != id
                }
            }),
    {
        self.tick_node_by_node(now);
        assert(self.tick_fits(now, id));
        let n = self.trie.nodes[id];
        let l = n.lulls;
        assert(self.trie.tokens(id) <= u64::MAX);
        assert(Fixed::int_of(25).units == 25_000_000_000);
        assert(Fixed::int_of(10_000).units == 10_000_000_000_000);
        let share = frac::<Fixed>(25, 10_000);
        assert(share.units == 2_500_000);
        if l.count >= 3 {
            divided(l.total, l.count);
            divided(l.squares, l.count);
            let mean = l.total.quot(Fixed::int_of(l.count));
            let mu = self.usual_lull(id);
            assert(mean.units == mu);
            assert(0 <= mu * mu <= 90_000_000_000_000 * 90_000_000_000_000) by (nonlinear_arith)
                requires
                    0 <= mu <= 90_000_000_000_000,
            ;
            let sq = mean.prod(mean);
            assert(sq.units == (mu * mu) / 1_000_000_000);
            let v = l.squares.quot(Fixed::int_of(l.count));
            assert(v.units == l.squares.units as int / l.count as int);
            assert(0 <= v.units) by {
                vstd::arithmetic::div_mod::lemma_div_pos_is_pos(
                    l.squares.units as int,
                    l.count as int,
                );
            }
            assert(v.diff(sq).units == v.units - sq.units);
            let part = share.prod(mean);
            assert(part.units == (2_500_000 * mu) / 1_000_000_000);
            let q = part.units as int;
            assert(0 <= q <= mu);
            assert(0 <= q * mu <= 90_000_000_000_000 * 90_000_000_000_000) by (nonlinear_arith)
                requires
                    0 <= q <= mu,
                    0 <= mu <= 90_000_000_000_000,
            ;
            assert(part.prod(mean).units == (q * mu) / 1_000_000_000);
            let due = n.stats.t_last.sum(mean);
            assert(due.units == n.stats.t_last.units + mu);
        }
    }
}

/// A return in numbers. Where the cache was deleted since the last request, the
/// hold grows by half, up to the longest worth paying for, if the return came
/// within an hour of the delete, and else goes half the way back to the hold
/// time; and a gap longer than the longest hold is counted as a lull, with its
/// length and its square. Where it was not, nothing is learned.
pub proof fn lesson_of_a_return(n: NodeModel<Fixed>, now: Fixed, tau: Fixed, longest: Fixed)
    requires
        0 <= tau.units <= longest.units <= 0x1000_0000_0000_0000,
        0 <= n.hold_hint.units <= longest.units,
        0 <= n.stats.t_last.units <= now.units,
        n.last_delete.units <= now.units,
        n.lulls.count < u64::MAX,
        ({
            let gap = now.units - n.stats.t_last.units;
            &&& gap <= 90_000_000_000_000
            &&& 0 <= n.lulls.total.units <= i64::MAX - gap
            &&& 0 <= n.lulls.squares.units <= i64::MAX - (gap * gap) / 1_000_000_000
        }),
    ensures
        ({
            let m = crate::engine::model::learned(n, now, tau, longest);
            let hold = if n.hold_hint.units > tau.units {
                n.hold_hint.units as int
            } else {
                tau.units as int
            };
            let gap = now.units - n.stats.t_last.units;
            &&& m == NodeModel { hold_hint: m.hold_hint, lulls: m.lulls, ..n }
            &&& if n.stats.t_last.units < n.last_delete.units {
                &&& if now.units - n.last_delete.units <= 1_000_000_000 {
                    m.hold_hint.units == if (3 * hold) / 2 < longest.units {
                        (3 * hold) / 2
                    } else {
                        longest.units as int
                    }
                } else {
                    m.hold_hint.units == tau.units + (hold - tau.units) / 2
                }
                &&& if gap > longest.units {
                    &&& m.lulls.count == n.lulls.count + 1
                    &&& m.lulls.total.units == n.lulls.total.units + gap
                    &&& m.lulls.squares.units == n.lulls.squares.units + (gap * gap)
                        / 1_000_000_000
                } else {
                    m.lulls == n.lulls
                }
            } else {
                m == n
            }
        }),
{
    let hold = n.hold_hint.larger(tau);
    let h = hold.units as int;
    assert(frac::<Fixed>(3, 2).units == 1_500_000_000);
    assert(frac::<Fixed>(1, 2).units == 500_000_000);
    assert(Fixed::int_of(1).units == 1_000_000_000);
    assert(crate::stats::long_gap::<Fixed>().units == 1_000_000_000);
    assert(h * 1_500_000_000 == (h * 3) * 500_000_000) by (nonlinear_arith);
    assert(((h * 3) * 500_000_000) / 1_000_000_000 == (h * 3) / 2) by (nonlinear_arith);
    let d = h - tau.units;
    assert((d * 500_000_000) / 1_000_000_000 == d / 2) by (nonlinear_arith);
    let gap = now.units - n.stats.t_last.units;
    assert(0 <= gap * gap <= 90_000_000_000_000 * 90_000_000_000_000) by (nonlinear_arith)
        requires
            0 <= gap <= 90_000_000_000_000,
    ;
}

impl<R: Real> EngineModel<R> {
    /// A tick collects garbage: what it removes was no root, has no cache after
    /// the tick, was idle for the minimum time and slower than the minimum rate;
    /// and it leaves no leaf that it could remove.
    #[verifier::rlimit(60)]
    pub proof fn tick_collects_garbage(self, now: R, id: int)
        requires
            self.wf(),
            0 <= id < self.trie.nodes.len(),
        ensures
            ({
                let t = self.ticked(now).0.trie;
                let n = self.trie.nodes[id];
                let m = t.nodes[id];
                let idle = self.cfg.gc_min_idle_hours.at_most(now.diff(n.stats.t_last));
                let slow = n.stats.decayed_lambda(now, self.cfg.tau_decay_hours).below(
                    self.cfg.gc_min_lambda,
                );
                &&& m.stats == n.stats
                &&& m.alive ==> n.alive
                &&& n.alive && !m.alive ==> id != 0 && m.state is Uncached && idle && slow
                &&& !(m.alive && id != 0 && m.children.dom().is_empty() && m.state is Uncached
                    && idle && slow)
            }),
    {
        self.tick_node_by_node(now);
        assert(self.tick_fits(now, id));
        self.pass_is_wf(Pass::Timeouts, now);
        self.pass_is_pointwise(Pass::Timeouts, now);
        let a = self.passed(Pass::Timeouts, now);
        assert(a.trie.nodes[id] == self.step(Pass::Timeouts, id, now).node(self.trie.nodes[id]));
        let before = if a.prices.tau_hold() is Some {
            a.managed(now).0
        } else {
            a
        };
        if a.prices.tau_hold() is Some {
            a.pass_is_wf(Pass::Retirements, now);
            a.pass_is_pointwise(Pass::Retirements, now);
            let b = a.passed(Pass::Retirements, now);
            assert(b.trie.nodes[id] == a.step(Pass::Retirements, id, now).node(a.trie.nodes[id]));
            b.pass_is_wf(Pass::Holds, now);
            b.pass_is_pointwise(Pass::Holds, now);
            let c = b.passed(Pass::Holds, now);
            assert(c.trie.nodes[id] == b.step(Pass::Holds, id, now).node(b.trie.nodes[id]));
            c.pass_is_wf(Pass::PreCreates, now);
            c.pass_is_pointwise(Pass::PreCreates, now);
            let d = c.passed(Pass::PreCreates, now);
            assert(d.trie.nodes[id] == c.step(Pass::PreCreates, id, now).node(c.trie.nodes[id]));
            assert(before == d);
        }
        assert(before.wf());
        let (min_lambda, min_idle) = (self.cfg.gc_min_lambda, self.cfg.gc_min_idle_hours);
        before.trie.gc_is_exact(now, min_lambda, min_idle);
        let t = self.ticked(now).0.trie;
        assert(t == before.trie.collected(now, min_lambda, min_idle));
        assert(before.trie.thinned_node(t.nodes[id], id, now, min_lambda, min_idle));
        assert(!t.cold(id, now, min_lambda, min_idle));
        assert(before.trie.nodes[id].stats == self.trie.nodes[id].stats);
        assert(before.trie.nodes[id].alive == self.trie.nodes[id].alive);
    }
}

} // verus!
