//! What the engine decides, stated over what it knows.
//!
//! A tick is a series of passes. In each, every node gets a [`Step`] by what is
//! known of it before the pass; the steps other than [`Step::Keep`] are then
//! carried out in ascending order of the node ids.
use vstd::prelude::*;

use crate::engine::{Action, Config, Defer};
use crate::number::{frac, Real};
use crate::plan::{mtok_of, Ask, Placement};
use crate::price::{Prices, Regime};
use crate::stats::long_gap;
use crate::trie::{CacheState, Lulls, NodeId, NodeModel, TrieModel};

verus! {

/// What a pass does to one node.
#[derive(Clone, Copy, Debug)]
pub enum Step<R> {
    /// Nothing.
    Keep,
    /// The node has no cache any more; nothing is left to delete remotely.
    Release {
        /// The time of the flip, hours.
        at: R,
    },
    /// The cache is deleted because deeper caches serve its traffic.
    Retire {
        /// The time of the flip, hours.
        at: R,
    },
    /// The cache is deleted because it was idle for too long.
    Delete {
        /// The time of the flip, hours.
        at: R,
    },
    /// The cache is kept longer.
    Extend {
        /// The new expiry, hours.
        until: R,
        /// The TTL tier it was bought at, hours.
        ttl: R,
    },
    /// A cache is created ahead of the next request.
    Warm {
        /// The time of the flip, hours.
        at: R,
        /// The length of the prefix in tokens.
        tokens: u64,
        /// The requested TTL, hours.
        ttl: R,
    },
    /// A cache point is placed whose lifetime the provider manages.
    Mark {
        /// The time of the flip, hours.
        at: R,
        /// The TTL tier, hours.
        ttl: R,
    },
}

impl<R: Real> Step<R> {
    /// The node once the step has been carried out.
    pub open spec fn node(self, n: NodeModel<R>) -> NodeModel<R> {
        match self {
            Step::Keep => n,
            Step::Release { at } => NodeModel { state: CacheState::Uncached, last_flip: at, ..n },
            Step::Retire { at } => NodeModel { state: CacheState::Uncached, last_flip: at, ..n },
            Step::Delete { at } => NodeModel {
                state: CacheState::Uncached,
                last_flip: at,
                last_delete: at,
                ..n
            },
            Step::Extend { until, ttl } => NodeModel {
                state: CacheState::Cached { expires_at_hours: until, ttl_hours: ttl },
                ..n
            },
            Step::Warm { at, tokens, ttl } => NodeModel {
                state: CacheState::Pending { since_hours: at },
                last_flip: at,
                ahead: true,
                ..n
            },
            Step::Mark { at, ttl } => NodeModel {
                state: CacheState::Cached { expires_at_hours: R::inf_of(), ttl_hours: ttl },
                last_flip: at,
                ..n
            },
        }
    }

    /// What the adapter is told.
    pub open spec fn action(self, id: NodeId) -> Option<Action<R>> {
        match self {
            Step::Retire { at } => Some(Action::Delete { node: id }),
            Step::Delete { at } => Some(Action::Delete { node: id }),
            Step::Extend { until, ttl } => Some(
                Action::Extend { node: id, expires_at_hours: until },
            ),
            Step::Warm { at, tokens, ttl } => Some(
                Action::PreCreate { node: id, tokens, ttl_hours: ttl },
            ),
            _ => None,
        }
    }

    /// Whether the step leaves a cache, live or in the making.
    pub open spec fn leaves_cache(self) -> bool {
        self is Extend || self is Warm || self is Mark
    }
}

/// What the adapter is told of a series of steps.
pub open spec fn told<R: Real>(steps: Seq<(NodeId, Step<R>)>) -> Seq<Action<R>>
    decreases steps.len(),
{
    if steps.len() == 0 {
        Seq::empty()
    } else {
        let before = told(steps.drop_last());
        match steps.last().1.action(steps.last().0) {
            Some(a) => before.push(a),
            None => before,
        }
    }
}

/// A pass over the nodes.
pub enum Pass<R> {
    /// Creates that were never confirmed are given up.
    Timeouts,
    /// Caches whose traffic deeper caches serve are deleted.
    Retirements,
    /// Idle caches are deleted, the others kept alive.
    Holds,
    /// Caches are created ahead of a predicted return.
    PreCreates,
    /// Cache points that the plan no longer holds are given up.
    Displaced {
        /// The plan.
        picks: Seq<Placement<R>>,
    },
}

/// What the engine knows: the traffic, the prices and its own parameters.
#[verifier::ext_equal]
pub struct EngineModel<R> {
    pub trie: TrieModel<R>,
    pub prices: Prices<R>,
    pub cfg: Config<R>,
}

/// What the engine says of one request.
#[verifier::ext_equal]
pub struct Sighting<R> {
    pub path: Seq<NodeId>,
    pub deepest_cached: Option<NodeId>,
    pub cached_tokens: u64,
    pub actions: Seq<Action<R>>,
    pub defer: Option<Defer<R>>,
}

/// The larger of two token counts.
pub open spec fn more(a: u64, b: u64) -> u64 {
    if a >= b {
        a
    } else {
        b
    }
}

/// The learned hold within its bounds: no shorter than the default, and no
/// longer than any hold worth paying for.
pub open spec fn hold_of<R: Real>(hint: R, tau_hold: R, tau_effective: R) -> R {
    tau_hold.larger(hint.smaller(tau_effective))
}

/// What a request that comes back to a prefix teaches of it. Where the cache
/// was deleted since the last request, the hold grows by half if the return
/// came within an hour of that, and otherwise goes half the way back to the
/// default; a gap longer than the longest hold counts as a lull.
pub open spec fn learned<R: Real>(n: NodeModel<R>, now: R, tau_hold: R, tau_effective: R)
    -> NodeModel<R> {
    if n.stats.t_last.below(n.last_delete) {
        let hold = n.hold_hint.larger(tau_hold);
        let gap = now.diff(n.stats.t_last);
        NodeModel {
            hold_hint: if now.diff(n.last_delete).at_most(long_gap()) {
                hold.prod(frac(3, 2)).smaller(tau_effective)
            } else {
                tau_hold.sum(hold.diff(tau_hold).prod(frac(1, 2)))
            },
            lulls: if tau_effective.below(gap) {
                Lulls {
                    count: if n.lulls.count == u64::MAX {
                        u64::MAX
                    } else {
                        (n.lulls.count + 1) as u64
                    },
                    total: n.lulls.total.sum(gap),
                    squares: n.lulls.squares.sum(gap.prod(gap)),
                }
            } else {
                n.lulls
            },
            ..n
        }
    } else {
        n
    }
}

/// The mean length of the lulls.
pub open spec fn mean_lull<R: Real>(l: Lulls<R>) -> R {
    l.total.quot(R::int_of(l.count))
}

/// Whether the lulls are regular: at least three, with a standard deviation of
/// at most a twentieth of the mean.
pub open spec fn regular<R: Real>(l: Lulls<R>) -> bool {
    let mean = mean_lull(l);
    &&& l.count >= 3
    &&& l.squares.quot(R::int_of(l.count)).diff(mean.prod(mean)).at_most(
        frac::<R>(25, 10_000).prod(mean).prod(mean),
    )
}

/// Whether a node holds a cache that is live at `now`.
pub open spec fn live_cache<R: Real>(n: NodeModel<R>, now: R) -> bool {
    match n.state {
        CacheState::Cached { expires_at_hours, ttl_hours } => now.below(expires_at_hours),
        _ => false,
    }
}

/// The node without a cache that the provider has let expire by `now`.
pub open spec fn cleared<R: Real>(n: NodeModel<R>, now: R) -> NodeModel<R> {
    if n.state is Cached && !live_cache(n, now) {
        NodeModel { state: CacheState::Uncached, ..n }
    } else {
        n
    }
}

impl<R: Real> EngineModel<R> {
    /// The engine's invariant: the trie is a tree, prefix lengths fit, and the
    /// trie was made with the parameters of the engine.
    pub open spec fn wf(self) -> bool {
        &&& self.trie.wf()
        &&& self.trie.fully_sized()
        &&& self.trie.block_tokens == self.cfg.block_tokens
        &&& self.trie.tau_decay == self.cfg.tau_decay_hours
        &&& self.trie.max_nodes == self.cfg.max_nodes
    }

    /// The length in tokens of the prefix at `id`.
    pub open spec fn tokens(self, id: int) -> u64 {
        self.trie.tokens(id) as u64
    }

    /// The length in tokens of the prefix at `id`, zero where there is none.
    pub open spec fn tokens_or_zero(self, id: Option<NodeId>) -> u64 {
        match id {
            Some(x) => self.tokens(x as int),
            None => 0,
        }
    }

    /// The node `id` replaced.
    pub open spec fn with_node(self, id: int, n: NodeModel<R>) -> Self {
        EngineModel { trie: self.trie.with_node(id, n), ..self }
    }

    /// The nodes below `upto` with a cache, in ascending order.
    pub open spec fn cached_below(self, upto: nat) -> Seq<NodeId>
        decreases upto,
    {
        if upto == 0 {
            Seq::empty()
        } else {
            let before = self.cached_below((upto - 1) as nat);
            if self.trie.nodes[upto - 1].state is Cached {
                before.push((upto - 1) as usize)
            } else {
                before
            }
        }
    }

    // Passes.

    /// Whether a node is due for another flip.
    pub open spec fn dwelt(self, n: NodeModel<R>, now: R) -> bool {
        self.cfg.min_dwell_hours.at_most(now.diff(n.last_flip))
    }

    /// A create left unconfirmed for too long is presumed failed.
    pub open spec fn timeout_step(self, n: NodeModel<R>, now: R) -> Step<R> {
        match n.state {
            CacheState::Pending { since_hours } => if self.cfg.pending_timeout_hours.below(
                now.diff(since_hours),
            ) {
                Step::Release { at: now }
            } else {
                Step::Keep
            },
            _ => Step::Keep,
        }
    }

    /// The nearest proper ancestor of `id` with a cache.
    pub open spec fn nearest_cached(self, id: int) -> Option<NodeId>
        decreases self.trie.nodes[id].depth_blocks,
    {
        match self.trie.nodes[id].parent {
            None => None,
            Some(p) => if self.trie.nodes[p as int].depth_blocks
                >= self.trie.nodes[id].depth_blocks {
                None
            } else if self.trie.nodes[p as int].state is Cached {
                Some(p)
            } else {
                self.nearest_cached(p as int)
            },
        }
    }

    /// The arrival rate at a node.
    pub open spec fn rate(self, n: NodeModel<R>, now: R) -> R {
        n.stats.decayed_lambda(now, self.cfg.tau_decay_hours)
    }

    /// The rate that caches among the first `upto` nodes take from `a`: the sum
    /// over those whose nearest cached ancestor is `a`, in ascending order;
    /// `None` where there is none.
    pub open spec fn covered(self, a: NodeId, upto: nat, now: R) -> Option<R>
        decreases upto,
    {
        if upto == 0 {
            None
        } else {
            let before = self.covered(a, (upto - 1) as nat, now);
            let b = upto - 1;
            if self.trie.nodes[b].state is Cached && self.nearest_cached(b) == Some(a) {
                let sub = match before {
                    Some(r) => r,
                    None => R::int_of(0),
                };
                Some(sub.sum(self.rate(self.trie.nodes[b], now)))
            } else {
                before
            }
        }
    }

    /// Whether the rate `lambda` is too low to earn a cache back within the
    /// hold.
    pub open spec fn too_slow(self, lambda: R, tau_hold: R) -> bool {
        lambda.prod(tau_hold).below(R::int_of(1).sum(self.cfg.create_margin))
    }

    /// A cache whose own traffic, less what deeper caches serve, would not earn
    /// it back is retired.
    pub open spec fn retire_step(self, id: int, now: R) -> Step<R> {
        match self.covered(id as usize, self.trie.nodes.len(), now) {
            Some(sub) => {
                let own = self.rate(self.trie.nodes[id], now).diff(sub).larger(R::int_of(0));
                if self.too_slow(own, self.prices.tau_hold()->0) {
                    Step::Retire { at: now }
                } else {
                    Step::Keep
                }
            },
            None => Step::Keep,
        }
    }

    /// The time from which an idle cache is held: the last request, or the
    /// creation where it was made ahead of one.
    pub open spec fn held_from(self, n: NodeModel<R>) -> R {
        if n.ahead {
            n.stats.t_last.larger(n.last_flip)
        } else {
            n.stats.t_last
        }
    }

    /// The time until which an idle cache is held.
    pub open spec fn hold_until(self, n: NodeModel<R>) -> R {
        self.held_from(n).sum(
            hold_of(n.hold_hint, self.prices.tau_hold()->0, self.prices.tau_effective()->0),
        )
    }

    /// Whether most gaps are known to outlast the hold.
    pub open spec fn mostly_idle(self, n: NodeModel<R>) -> bool {
        &&& self.cfg.confidence_samples.at_most(n.stats.samples)
        &&& frac::<R>(1, 2).below(n.stats.gap_fraction_gt(self.prices.tau_hold()->0))
    }

    /// An idle cache is deleted once its hold is over, or early where most gaps
    /// outlast it; one that the provider let expire is given up; one about to
    /// expire before its hold is over is extended to the end of the hold.
    pub open spec fn hold_step(self, n: NodeModel<R>, now: R) -> Step<R> {
        match n.state {
            CacheState::Cached { expires_at_hours, ttl_hours } => {
                let until = self.hold_until(n);
                if until.at_most(now) || self.mostly_idle(n) {
                    Step::Delete { at: now }
                } else if expires_at_hours.at_most(now) {
                    Step::Release { at: now }
                } else if expires_at_hours.sum(frac(1, 1_000_000_000)).below(until)
                    && expires_at_hours.diff(now).at_most(self.cfg.extend_lead_hours) {
                    Step::Extend { until, ttl: ttl_hours }
                } else {
                    Step::Keep
                }
            },
            _ => Step::Keep,
        }
    }

    /// A prefix long enough to cache, whose lulls are regular, is cached again
    /// shortly before it is due back; one that was given up just now is not.
    pub open spec fn warm_step(self, n: NodeModel<R>, now: R) -> Step<R> {
        let tokens = (n.depth_blocks * self.trie.block_tokens) as u64;
        let due = n.stats.t_last.sum(mean_lull(n.lulls));
        if n.alive && n.state is Uncached && n.last_flip.below(now) && self.dwelt(n, now) && tokens
            >= self.prices.min_cacheable_tokens && regular(n.lulls) && due.diff(
            self.cfg.extend_lead_hours,
        ).at_most(now) && now.at_most(due) {
            Step::Warm { at: now, tokens, ttl: self.prices.tau_hold()->0 }
        } else {
            Step::Keep
        }
    }

    /// A cache point that the plan no longer holds is given up once it has
    /// dwelt.
    pub open spec fn displaced_step(self, picks: Seq<Placement<R>>, id: int, now: R) -> Step<R> {
        if self.trie.nodes[id].state is Cached && !picked(picks, id as usize) && self.dwelt(
            self.trie.nodes[id],
            now,
        ) {
            Step::Release { at: now }
        } else {
            Step::Keep
        }
    }

    /// What a pass does to the node `id`.
    pub open spec fn step(self, pass: Pass<R>, id: int, now: R) -> Step<R> {
        match pass {
            Pass::Timeouts => self.timeout_step(self.trie.nodes[id], now),
            Pass::Retirements => self.retire_step(id, now),
            Pass::Holds => self.hold_step(self.trie.nodes[id], now),
            Pass::PreCreates => self.warm_step(self.trie.nodes[id], now),
            Pass::Displaced { picks } => self.displaced_step(picks, id, now),
        }
    }

    /// The steps of a pass over the first `upto` nodes.
    pub open spec fn steps(self, pass: Pass<R>, upto: nat, now: R) -> Seq<(NodeId, Step<R>)>
        decreases upto,
    {
        if upto == 0 {
            Seq::empty()
        } else {
            let before = self.steps(pass, (upto - 1) as nat, now);
            let step = self.step(pass, upto - 1, now);
            if step is Keep {
                before
            } else {
                before.push(((upto - 1) as usize, step))
            }
        }
    }

    /// The engine once steps have been carried out.
    pub open spec fn carried(self, steps: Seq<(NodeId, Step<R>)>) -> Self
        decreases steps.len(),
    {
        if steps.len() == 0 {
            self
        } else {
            let m = self.carried(steps.drop_last());
            let (id, step) = steps.last();
            m.with_node(id as int, step.node(m.trie.nodes[id as int]))
        }
    }

    /// All the steps of a pass.
    pub open spec fn all_steps(self, pass: Pass<R>, now: R) -> Seq<(NodeId, Step<R>)> {
        self.steps(pass, self.trie.nodes.len(), now)
    }

    /// The engine after a pass.
    pub open spec fn passed(self, pass: Pass<R>, now: R) -> Self {
        self.carried(self.all_steps(pass, now))
    }

    /// The engine and what the adapter is told after the passes that manage
    /// caches on the storage-metered regime.
    pub open spec fn managed(self, now: R) -> (Self, Seq<Action<R>>) {
        let a = self.passed(Pass::Retirements, now);
        let b = a.passed(Pass::Holds, now);
        let c = b.passed(Pass::PreCreates, now);
        (
            c,
            told(self.all_steps(Pass::Retirements, now)) + told(a.all_steps(Pass::Holds, now))
                + told(b.all_steps(Pass::PreCreates, now)),
        )
    }

    /// The engine without what has gone cold.
    pub open spec fn collected(self, now: R) -> Self {
        EngineModel {
            trie: self.trie.collected(now, self.cfg.gc_min_lambda, self.cfg.gc_min_idle_hours),
            ..self
        }
    }

    /// The engine and what the adapter is told after a tick.
    pub open spec fn ticked(self, now: R) -> (Self, Seq<Action<R>>) {
        let a = self.passed(Pass::Timeouts, now);
        if a.prices.tau_hold() is Some {
            let (b, actions) = a.managed(now);
            (b.collected(now), actions)
        } else {
            (a.collected(now), Seq::empty())
        }
    }

    // Requests.

    /// The lessons of a return to each of `ids`.
    pub open spec fn taught(self, ids: Seq<NodeId>, now: R) -> Self
        decreases ids.len(),
    {
        if ids.len() == 0 {
            self
        } else {
            let m = self.taught(ids.drop_last(), now);
            let id = ids.last() as int;
            m.with_node(
                id,
                learned(
                    m.trie.nodes[id],
                    now,
                    self.prices.tau_hold()->0,
                    self.prices.tau_effective()->0,
                ),
            )
        }
    }

    /// The engine with the caches on a path given up that have expired.
    pub open spec fn swept(self, path: Seq<NodeId>, now: R) -> Self
        decreases path.len(),
    {
        if path.len() == 0 {
            self
        } else {
            let m = self.swept(path.drop_last(), now);
            let id = path.last() as int;
            m.with_node(id, cleared(m.trie.nodes[id], now))
        }
    }

    /// The deepest node of a path with a live cache.
    pub open spec fn deepest_live(self, path: Seq<NodeId>, now: R) -> Option<NodeId>
        decreases path.len(),
    {
        if path.len() == 0 {
            None
        } else if live_cache(self.trie.nodes[path.last() as int], now) {
            Some(path.last())
        } else {
            self.deepest_live(path.drop_last(), now)
        }
    }

    /// The deepest node of a path with a create in flight.
    pub open spec fn deepest_pending(self, path: Seq<NodeId>) -> Option<NodeId>
        decreases path.len(),
    {
        if path.len() == 0 {
            None
        } else if self.trie.nodes[path.last() as int].state is Pending {
            Some(path.last())
        } else {
            self.deepest_pending(path.drop_last())
        }
    }

    /// Whether to wait for the create in flight on a path, and until when.
    pub open spec fn advice(self, path: Seq<NodeId>, now: R) -> Option<Defer<R>> {
        if self.cfg.enable_micro_batch && self.prices.regime() == Regime::StorageMetered {
            match self.deepest_pending(path) {
                Some(id) => {
                    let since = self.trie.nodes[id as int].state->since_hours;
                    if now.diff(since).below(self.cfg.micro_batch_defer_hours) {
                        Some(
                            Defer {
                                node: id,
                                until_hours: since.sum(self.cfg.micro_batch_defer_hours),
                            },
                        )
                    } else {
                        None
                    }
                },
                None => None,
            }
        } else {
            None
        }
    }

    /// Whether a cache at `id` is expected to earn back its creation.
    pub open spec fn earns(self, id: int, now: R) -> bool {
        let n = self.trie.nodes[id];
        let lambda = self.rate(n, now);
        &&& !self.too_slow(lambda, self.prices.tau_hold()->0)
        &&& self.cfg.theta_up.prod(
            self.prices.cost_rate(self.tokens(id), n.stats, now, self.cfg.tau_decay_hours).0,
        ).below(self.prices.savings_rate(self.tokens(id), lambda))
    }

    /// The deepest node of a path to create a cache at: uncached, past its
    /// dwell, longer than the minimum and than what a cache covers already, and
    /// expected to earn its creation back.
    pub open spec fn choice(self, path: Seq<NodeId>, covered: u64, now: R) -> Option<NodeId>
        decreases path.len(),
    {
        if path.len() == 0 {
            None
        } else {
            let id = path.last() as int;
            let n = self.trie.nodes[id];
            if self.tokens(id) < self.prices.min_cacheable_tokens {
                None
            } else if !(n.state is Uncached) || now.diff(n.last_flip).below(
                self.cfg.min_dwell_hours,
            ) {
                self.choice(path.drop_last(), covered, now)
            } else if self.tokens(id) <= covered {
                None
            } else if self.earns(id, now) {
                Some(path.last())
            } else {
                self.choice(path.drop_last(), covered, now)
            }
        }
    }

    /// The tokens of a path that a live cache or one in flight covers.
    pub open spec fn covered_tokens(self, path: Seq<NodeId>, deepest: Option<NodeId>) -> u64 {
        more(self.tokens_or_zero(deepest), self.tokens_or_zero(self.deepest_pending(path)))
    }

    /// The cache to create for a request, if any.
    pub open spec fn creation(
        self,
        path: Seq<NodeId>,
        deepest: Option<NodeId>,
        now: R,
    ) -> Option<NodeId> {
        if self.prices.tau_hold() is Some {
            self.choice(path, self.covered_tokens(path, deepest), now)
        } else {
            None
        }
    }

    /// The engine once a create was asked for.
    pub open spec fn created(self, choice: Option<NodeId>, now: R) -> Self {
        match choice {
            Some(id) => self.with_node(
                id as int,
                NodeModel {
                    state: CacheState::Pending { since_hours: now },
                    last_flip: now,
                    ahead: false,
                    ..self.trie.nodes[id as int]
                },
            ),
            None => self,
        }
    }

    /// The create that the adapter is told of.
    pub open spec fn create_actions(self, choice: Option<NodeId>) -> Seq<Action<R>> {
        match choice {
            Some(id) => seq![
                Action::Create {
                    node: id,
                    tokens: self.tokens(id as int),
                    ttl_hours: self.prices.tau_hold()->0,
                },
            ],
            None => Seq::empty(),
        }
    }

    /// The engine with the lessons of a return by `blocks`.
    pub open spec fn returned(self, blocks: Seq<u64>, now: R) -> Self {
        if self.prices.tau_hold() is Some {
            self.taught(self.trie.peeked_path(0, blocks), now)
        } else {
            self
        }
    }

    /// The engine, and what it says, after a request of `blocks`.
    pub open spec fn observed(self, blocks: Seq<u64>, now: R) -> (Self, Sighting<R>) {
        let a = self.returned(blocks, now);
        let (t, path) = a.trie.observed_path(0, blocks, now);
        let b = EngineModel { trie: t, ..a };
        let deepest = b.deepest_live(path, now);
        let c = b.swept(path, now);
        let choice = c.creation(path, deepest, now);
        (
            c.created(choice, now),
            Sighting {
                path,
                deepest_cached: deepest,
                cached_tokens: c.tokens_or_zero(deepest),
                actions: c.create_actions(choice),
                defer: c.advice(path, now),
            },
        )
    }

    /// The engine once a create was confirmed.
    pub open spec fn confirmed(self, id: int, now: R) -> Self {
        match self.prices.tau_hold() {
            Some(tau_hold) => if self.trie.nodes[id].state is Pending {
                self.with_node(
                    id,
                    NodeModel {
                        state: CacheState::Cached {
                            expires_at_hours: now.sum(tau_hold),
                            ttl_hours: tau_hold,
                        },
                        ..self.trie.nodes[id]
                    },
                )
            } else {
                self
            },
            None => self,
        }
    }

    /// The engine once an action was reported as failed.
    pub open spec fn failed(self, id: int, now: R) -> Self {
        self.with_node(
            id,
            NodeModel { state: CacheState::Uncached, last_flip: now, ..self.trie.nodes[id] },
        )
    }

    /// What a request of `total` tokens costs at the current cache state.
    pub open spec fn quoted(self, blocks: Seq<u64>, total: u64, now: R) -> R {
        let live = self.tokens_or_zero(self.deepest_live(self.trie.peeked_path(0, blocks), now));
        let cached = crate::number::min_u64(live, total);
        mtok_of::<R>(cached).prod(self.prices.cached_read_per_mtok).sum(
            mtok_of::<R>((total - cached) as u64).prod(self.prices.input_per_mtok),
        )
    }

    // Plans.

    /// The question that the plan answers.
    pub open spec fn ask(self, now: R) -> Ask<R> {
        Ask {
            trie: self.trie,
            prices: self.prices,
            now,
            theta_up: self.cfg.theta_up,
            theta_down: self.cfg.theta_down,
        }
    }

    /// The step that commits one placement.
    pub open spec fn mark_step(self, p: Placement<R>, now: R) -> Step<R> {
        if self.trie.nodes[p.node as int].state is Cached {
            Step::Keep
        } else {
            Step::Mark {
                at: now,
                ttl: match p.ttl_hours {
                    Some(ttl) => ttl,
                    None => R::int_of(0),
                },
            }
        }
    }

    /// The engine with placements committed, in order.
    pub open spec fn marked(self, picks: Seq<Placement<R>>, now: R) -> Self
        decreases picks.len(),
    {
        if picks.len() == 0 {
            self
        } else {
            let m = self.marked(picks.drop_last(), now);
            let p = picks.last();
            m.with_node(
                p.node as int,
                m.mark_step(p, now).node(m.trie.nodes[p.node as int]),
            )
        }
    }

    /// The engine with a plan committed, where the regime calls for it.
    pub open spec fn planned(self, now: R) -> Self {
        if self.prices.regime() == Regime::WritePremium {
            let picks = self.ask(now).chosen();
            self.passed(Pass::Displaced { picks }, now).marked(picks, now)
        } else {
            self
        }
    }
}

/// Whether a plan places a cache point at `id`.
pub open spec fn picked<R: Real>(picks: Seq<Placement<R>>, id: NodeId) -> bool {
    exists|i: int| 0 <= i < picks.len() && (#[trigger] picks[i]).node == id
}

} // verus!
