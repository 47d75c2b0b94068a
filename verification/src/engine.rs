//! The engine: observation intake plus the ski-rental lifecycle controller and
//! plan commitment.
//!
//! The engine never talks to a provider. It emits [`Action`]s; an adapter layer
//! executes them (`cachedContents.create/patch/delete` on Gemini, marker
//! placement on Anthropic). All engine decisions are advisory and fail-open: a
//! dropped action costs money at worst, never correctness.
use vstd::prelude::*;

use crate::engine::laws::names_nodes;
use crate::engine::model::{
    cleared, learned, picked, regular, told, EngineModel, Pass, Sighting, Step,
};
use crate::idset::IdSet;
use crate::number::{frac, ratio, Real};
use crate::plan::laws::plan_is_sane;
use crate::plan::{cost_rate, mtok, plan_breakpoints, savings_rate, Placement};
use crate::price::{PriceSheet, Regime};
use crate::stats::gap_edges_hours;
use crate::trie::{CacheState, Lulls, NodeId, NodeModel, PrefixTrie, TrieModel};

pub mod laws;
pub mod model;
pub mod promises;
pub mod requests;
pub mod ticks;

verus! {

/// Tunable engine parameters.
#[derive(Clone, Copy, Debug)]
pub struct Config<R> {
    /// Tokens per block; callers must chunk with the same value (see [`crate::chunk`]).
    pub block_tokens: u64,
    /// EWMA decay constant for rate estimates, hours.
    pub tau_decay_hours: R,
    /// Promote-to-cached threshold: require `S > theta_up * C`.
    pub theta_up: R,
    /// Demote threshold: keep while `S > theta_down * C`.
    pub theta_down: R,
    /// Minimum time between state flips of one node, hours.
    pub min_dwell_hours: R,
    /// Creation gate: expect at least `1 + margin` hits within the hold window.
    pub create_margin: R,
    /// Decayed sample count above which the rate estimate is trusted for
    /// early (rate-informed) deletion.
    pub confidence_samples: R,
    /// Emit an Extend when a cache is within this lead of expiry, and a
    /// PreCreate within this lead of a predicted return, hours. Callers must
    /// tick at least this often for either to land in time.
    pub extend_lead_hours: R,
    /// GC: remove uncached leaves whose decayed rate is below this...
    pub gc_min_lambda: R,
    /// ...and which have been idle at least this long, hours.
    pub gc_min_idle_hours: R,
    /// Hard cap on trie size; beyond it, unseen suffixes are not materialized.
    pub max_nodes: usize,
    /// Enable write-amortizing micro-batching: followers of an in-flight cache
    /// write receive a bounded defer advice so one write premium is amortized
    /// across the batch. Off by default (adds latency).
    pub enable_micro_batch: bool,
    /// Maximum defer for a follower, hours (default 2 seconds).
    pub micro_batch_defer_hours: R,
    /// A Create left unconfirmed this long is presumed failed and reverted.
    pub pending_timeout_hours: R,
}

/// The parameters an engine has unless told otherwise.
pub open spec fn default_config<R: Real>() -> Config<R> {
    Config {
        block_tokens: 256,
        tau_decay_hours: frac(1, 1),
        theta_up: frac(12, 10),
        theta_down: frac(8, 10),
        min_dwell_hours: frac(5, 60),
        create_margin: frac(5, 100),
        confidence_samples: frac(5, 1),
        extend_lead_hours: frac(5, 60),
        gc_min_lambda: frac(1, 100),
        gc_min_idle_hours: frac(24, 1),
        max_nodes: 200_000,
        enable_micro_batch: false,
        micro_batch_defer_hours: frac(2, 3600),
        pending_timeout_hours: frac(3, 60),
    }
}

impl<R: Real> Default for Config<R> {
    fn default() -> (r: Self)
        ensures
            r == default_config::<R>(),
    {
        Config {
            block_tokens: 256,
            tau_decay_hours: ratio(1, 1),
            theta_up: ratio(12, 10),
            theta_down: ratio(8, 10),
            min_dwell_hours: ratio(5, 60),
            create_margin: ratio(5, 100),
            confidence_samples: ratio(5, 1),
            extend_lead_hours: ratio(5, 60),
            gc_min_lambda: ratio(1, 100),
            gc_min_idle_hours: ratio(24, 1),
            max_nodes: 200_000,
            enable_micro_batch: false,
            micro_batch_defer_hours: ratio(2, 3600),
            pending_timeout_hours: ratio(3, 60),
        }
    }
}

/// A cache-management action for the provider adapter to execute.
#[derive(Clone, Copy, Debug, PartialEq)]
pub enum Action<R> {
    /// Create a provider-side cache for the prefix ending at `node`.
    Create {
        /// Trie node whose prefix should be cached.
        node: NodeId,
        /// Prefix length in tokens.
        tokens: u64,
        /// Requested initial TTL, hours.
        ttl_hours: R,
    },
    /// Create a provider-side cache ahead of a predicted return, while no
    /// request is in flight.
    PreCreate {
        /// Trie node whose prefix should be cached.
        node: NodeId,
        /// Prefix length in tokens.
        tokens: u64,
        /// Requested initial TTL, hours.
        ttl_hours: R,
    },
    /// Extend a live cache's expiry (Gemini `expire_time` update).
    Extend {
        /// The cached node.
        node: NodeId,
        /// New expiry time, hours on the caller's clock.
        expires_at_hours: R,
    },
    /// Delete a live cache.
    Delete {
        /// The cached node.
        node: NodeId,
    },
}

/// Micro-batching advice: this request's prefix has a cache write in flight;
/// briefly deferring dispatch lets it read the cache the leader is writing.
#[derive(Clone, Copy, Debug, PartialEq)]
pub struct Defer<R> {
    /// The pending node the request would read from once confirmed.
    pub node: NodeId,
    /// Latest time to wait until, hours; dispatch uncached at this deadline if
    /// the create is still unconfirmed. Bounds added latency.
    pub until_hours: R,
}

/// Result of observing one outgoing request.
#[derive(Clone, Debug)]
pub struct Observation<R> {
    /// Trie nodes along the request's block path (may be shorter than the
    /// request if the node budget truncated it).
    pub path: Vec<NodeId>,
    /// Deepest node on the path with a live provider-side cache: the cache the
    /// adapter should reference for this request.
    pub deepest_cached: Option<NodeId>,
    /// Prefix tokens covered by `deepest_cached` (0 when none).
    pub cached_tokens: u64,
    /// Lifecycle actions triggered by this observation (creations).
    pub actions: Vec<Action<R>>,
    /// Micro-batching advice ([`Config::enable_micro_batch`]); `None` unless a
    /// cache write for this prefix is currently in flight.
    pub defer: Option<Defer<R>>,
}

impl<R: Real> Observation<R> {
    pub open spec fn view(&self) -> Sighting<R> {
        Sighting {
            path: self.path@,
            deepest_cached: self.deepest_cached,
            cached_tokens: self.cached_tokens,
            actions: self.actions@,
            defer: self.defer,
        }
    }
}

/// The engine. One instance per (provider, model): provider caches are
/// model-scoped, so traffic to different models must not share a trie.
pub struct Engine<R> {
    pub(crate) trie: PrefixTrie<R>,
    pub(crate) prices: PriceSheet<R>,
    pub(crate) cfg: Config<R>,
    pub(crate) cached: IdSet,
    pub(crate) pending: IdSet,
}

impl<R: Real> Engine<R> {
    pub open(crate) spec fn view(&self) -> EngineModel<R> {
        EngineModel { trie: self.trie@, prices: self.prices@, cfg: self.cfg }
    }

    /// Whether the sets of cached and pending nodes are those of the trie.
    pub closed spec fn indexed(&self) -> bool {
        &&& forall|id: usize| #[trigger] self.cached@.contains(id) <==> id < self.trie@.nodes.len()
            && self.trie@.nodes[id as int].state is Cached
        &&& forall|id: usize| #[trigger]
            self.pending@.contains(id) <==> id < self.trie@.nodes.len()
                && self.trie@.nodes[id as int].state is Pending
    }

    /// The engine's invariant.
    pub open spec fn wf(&self) -> bool {
        self@.wf() && self.indexed()
    }

    /// Create an engine for one provider price sheet.
    pub fn new(prices: PriceSheet<R>, cfg: Config<R>) -> (r: Self)
        ensures
            r.wf(),
            r@ == (EngineModel {
                trie: TrieModel::root_only(cfg.block_tokens, cfg.tau_decay_hours, cfg.max_nodes),
                prices: prices@,
                cfg,
            }),
    {
        let trie = PrefixTrie::new(cfg.block_tokens, cfg.tau_decay_hours, cfg.max_nodes);
        let r = Engine { trie, prices, cfg, cached: IdSet::new(), pending: IdSet::new() };
        assert(r@.trie.fully_sized()) by {
            assert forall|id: int| 0 <= id < r@.trie.nodes.len() implies #[trigger] r@.trie.tokens(
                id,
            ) <= u64::MAX by {
                assert(0 * cfg.block_tokens == 0) by (nonlinear_arith);
            }
        }
        r
    }

    /// The price sheet this engine optimizes against.
    pub fn prices(&self) -> (r: &PriceSheet<R>)
        ensures
            r@ == self@.prices,
    {
        &self.prices
    }

    /// Read access to the traffic model.
    pub fn trie(&self) -> (r: &PrefixTrie<R>)
        ensures
            r@ == self@.trie,
    {
        &self.trie
    }

    /// Nodes the engine currently believes have live provider-side caches, in
    /// ascending order.
    pub fn cached_nodes(&self) -> (r: Vec<NodeId>)
        requires
            self.wf(),
        ensures
            r@ == self@.cached_below(self@.trie.nodes.len()),
    {
        let mut out: Vec<NodeId> = Vec::new();
        let mut id: NodeId = 0;
        while id < self.trie.nodes.len()
            invariant
                id <= self.trie.nodes.len(),
                self.wf(),
                out@ == self@.cached_below(id as nat),
            decreases self.trie.nodes.len() - id,
        {
            if self.cached.contains(id) {
                out.push(id);
            }
            id = id + 1;
        }
        out
    }

    /// Replaces what is known of the cache of one node.
    fn set_cache(
        &mut self,
        id: NodeId,
        state: CacheState<R>,
        last_flip: R,
        last_delete: R,
        ahead: bool,
    )
        requires
            old(self).wf(),
            id < old(self)@.trie.nodes.len(),
            state is Uncached || old(self)@.trie.nodes[id as int].alive,
        ensures
            final(self).wf(),
            final(self)@ == old(self)@.with_node(
                id as int,
                NodeModel {
                    state,
                    last_flip,
                    last_delete,
                    ahead,
                    ..old(self)@.trie.nodes[id as int]
                },
            ),
    {
        let ghost before = self@;
        let n = self.trie.node_mut(id);
        n.state = state;
        n.last_flip = last_flip;
        n.last_delete = last_delete;
        n.ahead = ahead;
        self.cached.remove(id);
        self.pending.remove(id);
        match state {
            CacheState::Cached { .. } => self.cached.insert(id),
            CacheState::Pending { .. } => self.pending.insert(id),
            CacheState::Uncached => {},
        }
        proof {
            before.with_node_is_wf(id as int, self@.trie.nodes[id as int]);
            assert(self@.trie =~= before.trie.with_node(
                id as int,
                self@.trie.nodes[id as int],
            ));
        }
    }

    /// Carries out one step.
    fn apply(&mut self, id: NodeId, step: Step<R>)
        requires
            old(self).wf(),
            id < old(self)@.trie.nodes.len(),
            step.leaves_cache() ==> old(self)@.trie.nodes[id as int].alive,
        ensures
            final(self).wf(),
            final(self)@ == old(self)@.with_node(
                id as int,
                step.node(old(self)@.trie.nodes[id as int]),
            ),
    {
        let ghost before = self@;
        let n = self.trie.node(id);
        let flip = n.last_flip;
        let deleted = n.last_delete;
        let ahead = n.ahead;
        match step {
            Step::Keep => {
                assert(before.trie.nodes =~= before.trie.nodes.update(
                    id as int,
                    before.trie.nodes[id as int],
                ));
            },
            Step::Release { at } => self.set_cache(id, CacheState::Uncached, at, deleted, ahead),
            Step::Retire { at } => self.set_cache(id, CacheState::Uncached, at, deleted, ahead),
            Step::Delete { at } => self.set_cache(id, CacheState::Uncached, at, at, ahead),
            Step::Extend { until, ttl } => self.set_cache(
                id,
                CacheState::Cached { expires_at_hours: until, ttl_hours: ttl },
                flip,
                deleted,
                ahead,
            ),
            Step::Warm { at, tokens: _, ttl: _ } => self.set_cache(
                id,
                CacheState::Pending { since_hours: at },
                at,
                deleted,
                true,
            ),
            Step::Mark { at, ttl } => self.set_cache(
                id,
                CacheState::Cached { expires_at_hours: R::infinity(), ttl_hours: ttl },
                at,
                deleted,
                ahead,
            ),
        }
    }

    /// Carries out the steps of a pass and tells of them.
    fn carry_out(&mut self, steps: &Vec<(NodeId, Step<R>)>, actions: &mut Vec<Action<R>>)
        requires
            old(self).wf(),
            old(self)@.sound(steps@),
        ensures
            final(self).wf(),
            final(self)@ == old(self)@.carried(steps@),
            final(actions)@ == old(actions)@ + told(steps@),
    {
        let ghost start = self@;
        let ghost said = actions@;
        let mut i: usize = 0;
        assert(steps@.take(0) =~= Seq::empty());
        assert(said + Seq::<Action<R>>::empty() =~= said);
        while i < steps.len()
            invariant
                i <= steps.len(),
                self.wf(),
                start.sound(steps@),
                self@ == start.carried(steps@.take(i as int)),
                actions@ == said + told(steps@.take(i as int)),
            decreases steps.len() - i,
        {
            let (id, step) = steps[i];
            proof {
                start.carried_keeps_alive(steps@.take(i as int));
                assert(start.sound_step(steps@[i as int]));
                assert(steps@.take(i + 1).drop_last() =~= steps@.take(i as int));
            }
            self.apply(id, step);
            match step {
                Step::Retire { .. } => actions.push(Action::Delete { node: id }),
                Step::Delete { .. } => actions.push(Action::Delete { node: id }),
                Step::Extend { until, .. } => actions.push(
                    Action::Extend { node: id, expires_at_hours: until },
                ),
                Step::Warm { tokens, ttl, .. } => actions.push(
                    Action::PreCreate { node: id, tokens, ttl_hours: ttl },
                ),
                _ => {},
            }
            i = i + 1;
            assert(actions@ =~= said + told(steps@.take(i as int)));
        }
        assert(steps@.take(i as int) =~= steps@);
    }

    /// The steps that give up creates left unconfirmed.
    fn timeouts(&self, now: R) -> (r: Vec<(NodeId, Step<R>)>)
        requires
            self.wf(),
        ensures
            r@ == self@.all_steps(Pass::Timeouts, now),
    {
        let mut out: Vec<(NodeId, Step<R>)> = Vec::new();
        let mut id: NodeId = 0;
        while id < self.trie.nodes.len()
            invariant
                id <= self.trie.nodes.len(),
                self.wf(),
                out@ == self@.steps(Pass::Timeouts, id as nat, now),
            decreases self.trie.nodes.len() - id,
        {
            if self.pending.contains(id) {
                if let CacheState::Pending { since_hours } = self.trie.node(id).state {
                    if self.cfg.pending_timeout_hours.is_lt(now.minus(since_hours)) {
                        out.push((id, Step::Release { at: now }));
                    }
                }
            }
            id = id + 1;
        }
        out
    }

    /// What the hold rule does to one node.
    fn hold_step(&self, id: NodeId, now: R, tau_hold: R, tau_effective: R) -> (r: Step<R>)
        requires
            id < self@.trie.nodes.len(),
            self@.prices.tau_hold() == Some(tau_hold),
            self@.prices.tau_effective() == Some(tau_effective),
        ensures
            r == self@.hold_step(self@.trie.nodes[id as int], now),
    {
        let node = self.trie.node(id);
        if let CacheState::Cached { expires_at_hours, ttl_hours } = node.state {
            let hold = tau_hold.max_with(node.hold_hint.min_with(tau_effective));
            // A cache made ahead of a request is held from its creation on.
            let from = if node.ahead {
                node.stats.t_last.max_with(node.last_flip)
            } else {
                node.stats.t_last
            };
            let hold_until = from.plus(hold);
            // Rate-informed early exit: with a confident estimator, if the
            // majority of observed gaps exceed the break-even hold time,
            // storage between hits costs more than recreation on average.
            let early = self.cfg.confidence_samples.is_le(node.stats.samples) && ratio::<R>(
                1,
                2,
            ).is_lt(node.stats.gap_fraction_gt(tau_hold));
            if hold_until.is_le(now) || early {
                // Delete even if the TTL just lapsed on its own (the controller
                // extends exactly to the hold boundary, so the two coincide);
                // provider deletes are idempotent.
                Step::Delete { at: now }
            } else if expires_at_hours.is_le(now) {
                // Extension cadence was missed and the provider expired the
                // entry mid-hold; nothing to delete remotely.
                Step::Release { at: now }
            } else if expires_at_hours.plus(ratio(1, 1_000_000_000)).is_lt(hold_until)
                && expires_at_hours.minus(now).is_le(self.cfg.extend_lead_hours) {
                Step::Extend { until: hold_until, ttl: ttl_hours }
            } else {
                Step::Keep
            }
        } else {
            Step::Keep
        }
    }

    /// The steps that delete idle caches and keep the others alive.
    fn holds(&self, now: R, tau_hold: R, tau_effective: R) -> (r: Vec<(NodeId, Step<R>)>)
        requires
            self.wf(),
            self@.prices.tau_hold() == Some(tau_hold),
            self@.prices.tau_effective() == Some(tau_effective),
        ensures
            r@ == self@.all_steps(Pass::Holds, now),
    {
        let mut out: Vec<(NodeId, Step<R>)> = Vec::new();
        let mut id: NodeId = 0;
        while id < self.trie.nodes.len()
            invariant
                id <= self.trie.nodes.len(),
                self.wf(),
                self@.prices.tau_hold() == Some(tau_hold),
                self@.prices.tau_effective() == Some(tau_effective),
                out@ == self@.steps(Pass::Holds, id as nat, now),
            decreases self.trie.nodes.len() - id,
        {
            if self.cached.contains(id) {
                let step = self.hold_step(id, now, tau_hold, tau_effective);
                if !matches!(step, Step::Keep) {
                    out.push((id, step));
                }
            }
            id = id + 1;
        }
        out
    }

    /// Whether the lulls of a node are regular.
    fn is_regular(lulls: &Lulls<R>) -> (r: bool)
        ensures
            r == regular(*lulls),
    {
        let count = R::from_int(lulls.count);
        let mean = lulls.total.over(count);
        let spread = lulls.squares.over(count).minus(mean.times(mean));
        lulls.count >= 3 && spread.is_le(ratio::<R>(25, 10_000).times(mean).times(mean))
    }

    /// What prediction does to one node.
    fn warm_step(&self, id: NodeId, now: R, tau_hold: R) -> (r: Step<R>)
        requires
            self.wf(),
            id < self@.trie.nodes.len(),
            self@.prices.tau_hold() == Some(tau_hold),
        ensures
            r == self@.warm_step(self@.trie.nodes[id as int], now),
    {
        let node = self.trie.node(id);
        if !node.alive || !matches!(node.state, CacheState::Uncached) || !node.last_flip.is_lt(now)
            || !self.cfg.min_dwell_hours.is_le(now.minus(node.last_flip)) || !Self::is_regular(
            &node.lulls,
        ) {
            return Step::Keep;
        }
        assert(self@.trie.live(id as int));
        let tokens: u64 = self.trie.tokens(id);
        if tokens < self.prices.min_cacheable_tokens {
            return Step::Keep;
        }
        let due = node.stats.t_last.plus(node.lulls.total.over(R::from_int(node.lulls.count)));
        if due.minus(self.cfg.extend_lead_hours).is_le(now) && now.is_le(due) {
            Step::Warm { at: now, tokens, ttl: tau_hold }
        } else {
            Step::Keep
        }
    }

    /// The steps that create caches ahead of a predicted return.
    fn pre_creates(&self, now: R, tau_hold: R) -> (r: Vec<(NodeId, Step<R>)>)
        requires
            self.wf(),
            self@.prices.tau_hold() == Some(tau_hold),
        ensures
            r@ == self@.all_steps(Pass::PreCreates, now),
    {
        let mut out: Vec<(NodeId, Step<R>)> = Vec::new();
        let mut id: NodeId = 0;
        while id < self.trie.nodes.len()
            invariant
                id <= self.trie.nodes.len(),
                self.wf(),
                self@.prices.tau_hold() == Some(tau_hold),
                out@ == self@.steps(Pass::PreCreates, id as nat, now),
            decreases self.trie.nodes.len() - id,
        {
            let step = self.warm_step(id, now, tau_hold);
            if !matches!(step, Step::Keep) {
                out.push((id, step));
            }
            id = id + 1;
        }
        out
    }

    /// The nearest proper ancestor of `id` with a cache.
    fn nearest_cached(&self, id: NodeId) -> (r: Option<NodeId>)
        requires
            self.wf(),
            self@.trie.live(id as int),
        ensures
            r == self@.nearest_cached(id as int),
            r is Some ==> r->0 < self@.trie.nodes.len(),
    {
        let mut cur: NodeId = id;
        loop
            invariant
                self.wf(),
                self@.trie.live(cur as int),
                self@.nearest_cached(id as int) == self@.nearest_cached(cur as int),
            decreases self@.trie.nodes[cur as int].depth_blocks,
        {
            proof {
                if cur != 0 {
                    assert(self@.trie.hangs(cur as int));
                }
            }
            match self.trie.node(cur).parent {
                None => {
                    return None;
                },
                Some(p) => {
                    if self.cached.contains(p) {
                        return Some(p);
                    }
                    cur = p;
                },
            }
        }
    }

    /// Exclusive-coverage retirement: a cached node whose traffic is almost
    /// entirely served by deeper cached descendants earns nothing on its own
    /// (its exclusive arrival rate no longer clears break-even), so its storage
    /// meter is pure waste. Attribute each cached node's rate to its *nearest*
    /// cached ancestor and retire ancestors whose exclusive remainder is below
    /// the creation gate.
    fn retire_dominated(&self, now: R, tau_hold: R) -> (r: Vec<(NodeId, Step<R>)>)
        requires
            self.wf(),
            self@.prices.tau_hold() == Some(tau_hold),
        ensures
            r@ == self@.all_steps(Pass::Retirements, now),
    {
        let tau = self.cfg.tau_decay_hours;
        let total: usize = self.trie.nodes.len();
        let mut covered: Vec<Option<R>> = Vec::new();
        while covered.len() < total
            invariant
                covered.len() <= total,
                forall|a: int| 0 <= a < covered.len() ==> #[trigger] covered@[a] is None,
            decreases total - covered.len(),
        {
            covered.push(None);
        }
        let mut b: NodeId = 0;
        while b < total
            invariant
                b <= total,
                total == self.trie.nodes.len(),
                tau == self.cfg.tau_decay_hours,
                self.wf(),
                covered.len() == total,
                forall|a: int|
                    0 <= a < total ==> #[trigger] covered@[a] == self@.covered(
                        a as usize,
                        b as nat,
                        now,
                    ),
            decreases total - b,
        {
            let ghost before = covered@;
            if self.cached.contains(b) {
                assert(self@.trie.live(b as int)) by {
                    let n = self@.trie.nodes[b as int];
                    assert(n.alive);
                }
                let lambda_b = self.trie.node(b).stats.decayed_lambda(now, tau);
                if let Some(a) = self.nearest_cached(b) {
                    let sub = match covered[a] {
                        Some(r) => r,
                        None => R::from_int(0),
                    };
                    covered[a] = Some(sub.plus(lambda_b));
                }
            }
            b = b + 1;
            assert forall|a: int| 0 <= a < total implies #[trigger] covered@[a] == self@.covered(
                a as usize,
                b as nat,
                now,
            ) by {
                assert(before[a] == self@.covered(a as usize, (b - 1) as nat, now));
            }
        }
        let mut out: Vec<(NodeId, Step<R>)> = Vec::new();
        let mut id: NodeId = 0;
        while id < total
            invariant
                id <= total,
                total == self.trie.nodes.len(),
                tau == self.cfg.tau_decay_hours,
                self@.prices.tau_hold() == Some(tau_hold),
                covered.len() == total,
                forall|a: int|
                    0 <= a < total ==> #[trigger] covered@[a] == self@.covered(
                        a as usize,
                        total as nat,
                        now,
                    ),
                out@ == self@.steps(Pass::Retirements, id as nat, now),
            decreases total - id,
        {
            if let Some(sub) = covered[id] {
                let lam_excl = self.trie.node(id).stats.decayed_lambda(now, tau).minus(
                    sub,
                ).max_with(R::from_int(0));
                if lam_excl.times(tau_hold).is_lt(
                    R::from_int(1).plus(self.cfg.create_margin),
                ) {
                    out.push((id, Step::Retire { at: now }));
                }
            }
            id = id + 1;
        }
        out
    }

    /// Periodic maintenance: ski-rental deletions, TTL extensions, creations
    /// ahead of a predicted return, and trie GC.
    ///
    /// Call at least every [`Config::extend_lead_hours`] for extensions to land
    /// before provider-side expiry.
    pub fn tick(&mut self, now: R) -> (actions: Vec<Action<R>>)
        requires
            old(self).wf(),
        ensures
            final(self).wf(),
            (final(self)@, actions@) == old(self)@.ticked(now),
            final(self)@.prices == old(self)@.prices,
            final(self)@.cfg == old(self)@.cfg,
            final(self)@.trie.nodes.len() == old(self)@.trie.nodes.len(),
            names_nodes(actions@, final(self)@.trie.nodes.len()),
    {
        let ghost start = self@;
        let mut actions: Vec<Action<R>> = Vec::new();
        // Presume unconfirmed creates failed after the timeout (fail-open: the
        // node just becomes creatable again after the dwell).
        let steps = self.timeouts(now);
        let mut silent: Vec<Action<R>> = Vec::new();
        proof {
            start.steps_are_sound(Pass::Timeouts, now);
        }
        self.carry_out(&steps, &mut silent);
        let ghost a = self@;
        if let Some(tau_hold) = self.prices.tau_hold_hours() {
            if let Some(tau_effective) = self.prices.tau_effective_hours() {
                let steps = self.retire_dominated(now, tau_hold);
                proof {
                    a.steps_are_sound(Pass::Retirements, now);
                }
                self.carry_out(&steps, &mut actions);
                let ghost b = self@;
                proof {
                    a.carried_keeps_alive(steps@);
                    b.steps_are_sound(Pass::Holds, now);
                }
                let steps = self.holds(now, tau_hold, tau_effective);
                self.carry_out(&steps, &mut actions);
                let ghost c = self@;
                proof {
                    b.carried_keeps_alive(steps@);
                    c.steps_are_sound(Pass::PreCreates, now);
                }
                let steps = self.pre_creates(now, tau_hold);
                self.carry_out(&steps, &mut actions);
                assert(actions@ =~= a.managed(now).1);
                assert(self@ == a.managed(now).0);
            }
        }
        proof {
            start.tick_names_nodes(now);
        }
        let ghost before = self@;
        self.trie.gc(now, self.cfg.gc_min_lambda, self.cfg.gc_min_idle_hours);
        proof {
            before.collected_is_wf(now);
            assert(self@ =~= before.collected(now));
            assert(before.trie.thinned(
                self@.trie,
                now,
                self.cfg.gc_min_lambda,
                self.cfg.gc_min_idle_hours,
            ));
            assert(self.indexed()) by {
                assert forall|id: usize| id < self@.trie.nodes.len() implies self@.trie.nodes[
                    id as int
                ].state == before.trie.nodes[id as int].state by {
                    assert(before.trie.thinned_node(
                        self@.trie.nodes[id as int],
                        id as int,
                        now,
                        self.cfg.gc_min_lambda,
                        self.cfg.gc_min_idle_hours,
                    ));
                }
            }
        }
        actions
    }

    /// Learns from a return to one node.
    fn learn(&mut self, id: NodeId, now: R, tau_hold: R, tau_effective: R)
        requires
            old(self).wf(),
            id < old(self)@.trie.nodes.len(),
        ensures
            final(self).wf(),
            final(self)@ == old(self)@.with_node(
                id as int,
                learned(old(self)@.trie.nodes[id as int], now, tau_hold, tau_effective),
            ),
    {
        let ghost before = self@;
        let n = self.trie.node_mut(id);
        if n.stats.t_last.is_lt(n.last_delete) {
            let hold = n.hold_hint.max_with(tau_hold);
            let gap = now.minus(n.stats.t_last);
            if now.minus(n.last_delete).is_le(gap_edges_hours::<R>()[1]) {
                n.hold_hint = hold.times(ratio(3, 2)).min_with(tau_effective);
            } else {
                n.hold_hint = tau_hold.plus(hold.minus(tau_hold).times(ratio(1, 2)));
            }
            if tau_effective.is_lt(gap) {
                n.lulls = Lulls {
                    count: n.lulls.count.saturating_add(1),
                    total: n.lulls.total.plus(gap),
                    squares: n.lulls.squares.plus(gap.times(gap)),
                };
            }
        }
        proof {
            before.with_node_is_wf(id as int, self@.trie.nodes[id as int]);
            assert(self@.trie =~= before.trie.with_node(
                id as int,
                self@.trie.nodes[id as int],
            ));
        }
    }

    /// Learns from a return by `blocks`.
    fn learn_return(&mut self, blocks: &[u64], now: R)
        requires
            old(self).wf(),
        ensures
            final(self).wf(),
            final(self)@ == old(self)@.returned(blocks@, now),
    {
        let ghost start = self@;
        if let Some(tau_hold) = self.prices.tau_hold_hours() {
            if let Some(tau_effective) = self.prices.tau_effective_hours() {
                let known = self.trie.peek_path(blocks);
                let mut i: usize = 0;
                assert(known@.take(0) =~= Seq::empty());
                while i < known.len()
                    invariant
                        i <= known.len(),
                        self.wf(),
                        start.prices.tau_hold() == Some(tau_hold),
                        start.prices.tau_effective() == Some(tau_effective),
                        self@.trie.nodes.len() == start.trie.nodes.len(),
                        forall|k: int|
                            0 <= k < known@.len() ==> start.trie.live(#[trigger] known@[k] as int),
                        self@ == start.taught(known@.take(i as int), now),
                    decreases known.len() - i,
                {
                    let id: NodeId = known[i];
                    assert(start.trie.live(known@[i as int] as int));
                    assert(known@.take(i + 1).drop_last() =~= known@.take(i as int));
                    self.learn(id, now, tau_hold, tau_effective);
                    i = i + 1;
                }
                assert(known@.take(i as int) =~= known@);
            }
        }
    }

    /// The deepest live cache on a path. Caches on the path that the provider
    /// has let expire are given up on the way.
    fn sweep_path(&mut self, path: &Vec<NodeId>, now: R) -> (deepest: Option<NodeId>)
        requires
            old(self).wf(),
            forall|k: int|
                0 <= k < path@.len() ==> old(self)@.trie.live(#[trigger] path@[k] as int),
        ensures
            final(self).wf(),
            final(self)@ == old(self)@.swept(path@, now),
            deepest == old(self)@.deepest_live(path@, now),
    {
        let ghost start = self@;
        let mut deepest: Option<NodeId> = None;
        let mut i: usize = 0;
        assert(path@.take(0) =~= Seq::empty());
        while i < path.len()
            invariant
                i <= path.len(),
                self.wf(),
                forall|k: int|
                    0 <= k < path@.len() ==> start.trie.live(#[trigger] path@[k] as int),
                self@ == start.swept(path@.take(i as int), now),
                deepest == start.deepest_live(path@.take(i as int), now),
            decreases path.len() - i,
        {
            let id: NodeId = path[i];
            proof {
                assert(start.trie.live(path@[i as int] as int));
                assert(path@.take(i + 1).drop_last() =~= path@.take(i as int));
                start.swept_keeps_live(path@.take(i as int), id as int, now);
            }
            let n = self.trie.node(id);
            let flip = n.last_flip;
            let deleted = n.last_delete;
            let ahead = n.ahead;
            let ghost here = self@;
            if let CacheState::Cached { expires_at_hours, .. } = n.state {
                if now.is_lt(expires_at_hours) {
                    deepest = Some(id);
                } else {
                    self.set_cache(id, CacheState::Uncached, flip, deleted, ahead);
                }
            }
            assert(self@ =~= here.with_node(
                id as int,
                cleared(here.trie.nodes[id as int], now),
            )) by {
                assert(here.trie.nodes.update(id as int, here.trie.nodes[id as int])
                    =~= here.trie.nodes);
            }
            i = i + 1;
        }
        assert(path@.take(i as int) =~= path@);
        deepest
    }

    /// The deepest node of a path with a create in flight.
    fn deepest_pending(&self, path: &Vec<NodeId>) -> (r: Option<NodeId>)
        requires
            self.wf(),
            forall|k: int| 0 <= k < path@.len() ==> self@.trie.live(#[trigger] path@[k] as int),
        ensures
            r == self@.deepest_pending(path@),
            r is Some ==> self@.trie.live(r->0 as int),
    {
        let mut i: usize = path.len();
        assert(path@.take(i as int) =~= path@);
        while i > 0
            invariant
                i <= path.len(),
                self.wf(),
                forall|k: int|
                    0 <= k < path@.len() ==> self@.trie.live(#[trigger] path@[k] as int),
                self@.deepest_pending(path@) == self@.deepest_pending(path@.take(i as int)),
            decreases i,
        {
            let id: NodeId = path[i - 1];
            assert(self@.trie.live(path@[i - 1] as int));
            assert(path@.take(i as int).drop_last() =~= path@.take(i - 1));
            if matches!(self.trie.node(id).state, CacheState::Pending { .. }) {
                return Some(id);
            }
            i = i - 1;
        }
        None
    }

    /// Micro-batching advice for a request along `path`.
    fn advise(&self, path: &Vec<NodeId>, now: R) -> (r: Option<Defer<R>>)
        requires
            self.wf(),
            forall|k: int| 0 <= k < path@.len() ==> self@.trie.live(#[trigger] path@[k] as int),
        ensures
            r == self@.advice(path@, now),
    {
        if !self.cfg.enable_micro_batch || self.prices.regime() != Regime::StorageMetered {
            return None;
        }
        if let Some(id) = self.deepest_pending(path) {
            if let CacheState::Pending { since_hours } = self.trie.node(id).state {
                if now.minus(since_hours).is_lt(self.cfg.micro_batch_defer_hours) {
                    return Some(
                        Defer {
                            node: id,
                            until_hours: since_hours.plus(self.cfg.micro_batch_defer_hours),
                        },
                    );
                }
            } else {
                proof {
                    self@.deepest_pending_is_pending(path@);
                }
            }
        }
        None
    }

    /// The length in tokens of the prefix at `id`, zero where there is none.
    fn tokens_or_zero(&self, id: Option<NodeId>) -> (r: u64)
        requires
            self.wf(),
            id is Some ==> self@.trie.live(id->0 as int),
        ensures
            r == self@.tokens_or_zero(id),
    {
        match id {
            Some(x) => self.trie.tokens(x),
            None => 0,
        }
    }

    /// Storage-regime creation rule: cache the deepest eligible node on the
    /// path expected to earn back its creation cost within the hold window.
    fn consider_create(
        &mut self,
        path: &Vec<NodeId>,
        deepest_cached: Option<NodeId>,
        now: R,
        actions: &mut Vec<Action<R>>,
    )
        requires
            old(self).wf(),
            forall|k: int|
                0 <= k < path@.len() ==> old(self)@.trie.live(#[trigger] path@[k] as int),
            deepest_cached is Some ==> old(self)@.trie.live(deepest_cached->0 as int),
        ensures
            final(self).wf(),
            final(self)@ == old(self)@.created(
                old(self)@.creation(path@, deepest_cached, now),
                now,
            ),
            final(actions)@ == old(actions)@ + old(self)@.create_actions(
                old(self)@.creation(path@, deepest_cached, now),
            ),
    {
        let ghost start = self@;
        let ghost said = actions@;
        let tau_hold = match self.prices.tau_hold_hours() {
            Some(tau_hold) => tau_hold,
            None => {
                assert(said + Seq::<Action<R>>::empty() =~= said);
                return ;
            },
        };
        // In-flight (Pending) creates count as coverage too: while one is in
        // flight, a shallower create for the same traffic is pure waste.
        let pending_tokens: u64 = self.tokens_or_zero(self.deepest_pending(path));
        let live_tokens: u64 = self.tokens_or_zero(deepest_cached);
        let covered_tokens: u64 = if live_tokens >= pending_tokens {
            live_tokens
        } else {
            pending_tokens
        };
        assert(covered_tokens == start.covered_tokens(path@, deepest_cached));
        let mut chosen: Option<NodeId> = None;
        let mut i: usize = path.len();
        assert(path@.take(i as int) =~= path@);
        while i > 0
            invariant_except_break
                chosen is None,
                start.choice(path@, covered_tokens, now) == start.choice(
                    path@.take(i as int),
                    covered_tokens,
                    now,
                ),
            invariant
                i <= path.len(),
                self.wf(),
                self@ == start,
                start.prices.tau_hold() == Some(tau_hold),
                forall|k: int|
                    0 <= k < path@.len() ==> start.trie.live(#[trigger] path@[k] as int),
            ensures
                chosen == start.choice(path@, covered_tokens, now),
                chosen is Some ==> start.trie.live(chosen->0 as int),
            decreases i,
        {
            let id: NodeId = path[i - 1];
            assert(start.trie.live(path@[i - 1] as int));
            assert(path@.take(i as int).drop_last() =~= path@.take(i - 1));
            i = i - 1;
            let tokens: u64 = self.trie.tokens(id);
            if tokens < self.prices.min_cacheable_tokens {
                // Tokens shrink toward the root; nothing shallower qualifies.
                break;
            }
            let node = self.trie.node(id);
            if !matches!(node.state, CacheState::Uncached) || now.minus(node.last_flip).is_lt(
                self.cfg.min_dwell_hours,
            ) {
                continue;
            }
            if tokens <= covered_tokens {
                // A live cache already covers at least this much prefix.
                break;
            }
            let lambda = node.stats.decayed_lambda(now, self.cfg.tau_decay_hours);
            if lambda.times(tau_hold).is_lt(R::from_int(1).plus(self.cfg.create_margin)) {
                // Won't earn a hit back inside the hold window.
                continue;
            }
            let (c, _) = cost_rate(
                &self.prices,
                tokens,
                &node.stats,
                now,
                self.cfg.tau_decay_hours,
            );
            let s = savings_rate(&self.prices, tokens, lambda);
            if self.cfg.theta_up.times(c).is_lt(s) {
                // Deepest eligible wins.
                chosen = Some(id);
                break;
            }
        }
        if let Some(id) = chosen {
            let tokens: u64 = self.trie.tokens(id);
            actions.push(Action::Create { node: id, tokens, ttl_hours: tau_hold });
            // The node stays Pending until the adapter confirms the
            // provider-side create ([`Engine::confirm_create`]) or reports
            // failure ([`Engine::mark_failed`]); a timeout in `tick()` is the
            // backstop.
            let deleted = self.trie.node(id).last_delete;
            self.set_cache(id, CacheState::Pending { since_hours: now }, now, deleted, false);
            // Cached ancestors this deeper cache dominates are retired by the
            // exclusive-traffic check in `tick()` once the new node's rate
            // estimator warms up enough to attribute the traffic correctly.
        }
        assert(actions@ =~= said + start.create_actions(chosen));
    }

    /// Record one outgoing request (as block hashes; see [`crate::chunk`]) at
    /// time `now`, returning the cache to reference and any lifecycle actions.
    ///
    /// Never blocks the request path: creations are fire-and-forget and the
    /// observed request itself proceeds however the current cache state allows.
    pub fn observe(&mut self, blocks: &[u64], now: R) -> (obs: Observation<R>)
        requires
            old(self).wf(),
            blocks@.len() * old(self)@.cfg.block_tokens <= u64::MAX,
        ensures
            final(self).wf(),
            (final(self)@, obs@) == old(self)@.observed(blocks@, now),
            final(self)@.prices == old(self)@.prices,
            final(self)@.cfg == old(self)@.cfg,
            names_nodes(obs@.actions, final(self)@.trie.nodes.len()),
            forall|k: int|
                0 <= k < obs.path@.len() ==> final(self)@.trie.live(
                    #[trigger] obs.path@[k] as int,
                ),
            final(self)@.trie.nodes.len() >= old(self)@.trie.nodes.len(),
    {
        let ghost start = self@;
        self.learn_return(blocks, now);
        let ghost a = self@;
        let ghost was = *self;
        let path = self.trie.observe_path(blocks, now);
        let ghost b = self@;
        proof {
            start.returned_keeps_rules(blocks@, now);
            assert(blocks.len() <= u64::MAX);
            a.walked_is_wf(blocks@, now);
            start.observe_names_nodes(blocks@, now);
            assert(b == (EngineModel { trie: b.trie, ..a }));
            let passed = a.trie.observed_path(0, blocks@, now).1;
            assert(passed == path@);
            assert forall|k: int| 0 <= k < path@.len() implies b.trie.live(
                #[trigger] path@[k] as int,
            ) by {
                assert(b.trie.live(passed[k] as int));
            }
            assert forall|id: usize| #[trigger] self.cached@.contains(id) <==> id
                < self.trie@.nodes.len() && self.trie@.nodes[id as int].state is Cached by {
                assert(was.cached@.contains(id) <==> id < was.trie@.nodes.len()
                    && was.trie@.nodes[id as int].state is Cached);
            }
            assert forall|id: usize| #[trigger] self.pending@.contains(id) <==> id
                < self.trie@.nodes.len() && self.trie@.nodes[id as int].state is Pending by {
                assert(was.pending@.contains(id) <==> id < was.trie@.nodes.len()
                    && was.trie@.nodes[id as int].state is Pending);
            }
        }
        // Deepest live cached node; lazily clear entries the provider has
        // already expired.
        let deepest_cached = self.sweep_path(&path, now);
        let ghost c = self@;
        proof {
            assert forall|k: int| 0 <= k < path@.len() implies (#[trigger] path@[k])
                < b.trie.nodes.len() by {
                assert(b.trie.live(path@[k] as int));
            }
            b.swept_keeps_place(path@, now);
            b.deepest_live_is_on_path(path@, now);
            assert forall|k: int| 0 <= k < path@.len() implies c.trie.live(
                #[trigger] path@[k] as int,
            ) by {
                assert(b.trie.live(path@[k] as int));
            }
        }
        // Micro-batching: computed before any creation this observation might
        // trigger, so a leader never defers on its own write.
        let defer = self.advise(&path, now);
        // A creation may change the deepest cached node for *future* requests,
        // but this request still references the pre-existing one.
        let cached_tokens: u64 = self.tokens_or_zero(deepest_cached);
        let mut actions: Vec<Action<R>> = Vec::new();
        self.consider_create(&path, deepest_cached, now, &mut actions);
        let obs = Observation { path, deepest_cached, cached_tokens, actions, defer };
        proof {
            let choice = c.creation(path@, deepest_cached, now);
            assert(obs@.actions =~= c.create_actions(choice));
            assert(obs@ =~= start.observed(blocks@, now).1);
            assert(self@ == start.observed(blocks@, now).0);
        }
        obs
    }

    /// Confirm a provider-side create succeeded: the node's cache is live from
    /// `now` for the TTL requested in the Create action.
    pub fn confirm_create(&mut self, node: NodeId, now: R)
        requires
            old(self).wf(),
            old(self)@.prices.tau_hold() is Some ==> node < old(self)@.trie.nodes.len(),
        ensures
            final(self).wf(),
            final(self)@ == old(self)@.confirmed(node as int, now),
            final(self)@.prices == old(self)@.prices,
            final(self)@.cfg == old(self)@.cfg,
            final(self)@.trie.nodes.len() == old(self)@.trie.nodes.len(),
    {
        if let Some(tau_hold) = self.prices.tau_hold_hours() {
            let n = self.trie.node(node);
            if matches!(n.state, CacheState::Pending { .. }) {
                let flip = n.last_flip;
                let deleted = n.last_delete;
                let ahead = n.ahead;
                assert(self@.trie.nodes[node as int].alive);
                self.set_cache(
                    node,
                    CacheState::Cached {
                        expires_at_hours: now.plus(tau_hold),
                        ttl_hours: tau_hold,
                    },
                    flip,
                    deleted,
                    ahead,
                );
            }
        }
    }

    /// Tell the engine a provider-side action failed (e.g. create rejected):
    /// reverts the node to uncached so the state model stays truthful. The
    /// dwell timer restarts, giving the provider a breather before a retry.
    pub fn mark_failed(&mut self, node: NodeId, now: R)
        requires
            old(self).wf(),
            node < old(self)@.trie.nodes.len(),
        ensures
            final(self).wf(),
            final(self)@ == old(self)@.failed(node as int, now),
            final(self)@.prices == old(self)@.prices,
            final(self)@.cfg == old(self)@.cfg,
            final(self)@.trie.nodes.len() == old(self)@.trie.nodes.len(),
    {
        let n = self.trie.node(node);
        let deleted = n.last_delete;
        let ahead = n.ahead;
        self.set_cache(node, CacheState::Uncached, now, deleted, ahead);
    }

    /// Estimate the input-token cost of sending this request through this
    /// engine's provider right now, given its live cache state: the quantity
    /// cross-provider routing compares. Read-only: does not record a traversal.
    pub fn quote_input_cost(&self, blocks: &[u64], total_tokens: u64, now: R) -> (r: R)
        requires
            self.wf(),
        ensures
            r == self@.quoted(blocks@, total_tokens, now),
    {
        let path = self.trie.peek_path(blocks);
        let mut deepest: Option<NodeId> = None;
        let mut i: usize = 0;
        assert(path@.take(0) =~= Seq::empty());
        while i < path.len()
            invariant
                i <= path.len(),
                self.wf(),
                forall|k: int|
                    0 <= k < path@.len() ==> self@.trie.live(#[trigger] path@[k] as int),
                deepest == self@.deepest_live(path@.take(i as int), now),
                deepest is Some ==> self@.trie.live(deepest->0 as int),
            decreases path.len() - i,
        {
            let id: NodeId = path[i];
            assert(self@.trie.live(path@[i as int] as int));
            assert(path@.take(i + 1).drop_last() =~= path@.take(i as int));
            if let CacheState::Cached { expires_at_hours, .. } = self.trie.node(id).state {
                if now.is_lt(expires_at_hours) {
                    deepest = Some(id);
                }
            }
            i = i + 1;
        }
        assert(path@.take(i as int) =~= path@);
        let live: u64 = self.tokens_or_zero(deepest);
        let cached: u64 = if live <= total_tokens {
            live
        } else {
            total_tokens
        };
        mtok::<R>(cached).times(self.prices.cached_read_per_mtok).plus(
            mtok::<R>(total_tokens - cached).times(self.prices.input_per_mtok),
        )
    }

    /// Whether a plan places a cache point at `id`.
    fn is_picked(picks: &Vec<Placement<R>>, id: NodeId) -> (r: bool)
        ensures
            r == picked(picks@, id),
    {
        let mut i: usize = 0;
        while i < picks.len()
            invariant
                i <= picks.len(),
                forall|k: int| 0 <= k < i ==> (#[trigger] picks@[k]).node != id,
            decreases picks.len() - i,
        {
            if picks[i].node == id {
                return true;
            }
            i = i + 1;
        }
        false
    }

    /// The steps that give up cache points which the plan no longer holds.
    fn displaced(&self, picks: &Vec<Placement<R>>, now: R) -> (r: Vec<(NodeId, Step<R>)>)
        requires
            self.wf(),
        ensures
            r@ == self@.all_steps(Pass::Displaced { picks: picks@ }, now),
    {
        let ghost pass = Pass::Displaced { picks: picks@ };
        let mut out: Vec<(NodeId, Step<R>)> = Vec::new();
        let mut id: NodeId = 0;
        while id < self.trie.nodes.len()
            invariant
                id <= self.trie.nodes.len(),
                self.wf(),
                pass == (Pass::Displaced { picks: picks@ }),
                out@ == self@.steps(pass, id as nat, now),
            decreases self.trie.nodes.len() - id,
        {
            if self.cached.contains(id) && !Self::is_picked(picks, id)
                && self.cfg.min_dwell_hours.is_le(now.minus(self.trie.node(id).last_flip)) {
                out.push((id, Step::Release { at: now }));
            }
            id = id + 1;
        }
        out
    }

    /// Compute the current optimal breakpoint placement
    /// ([`crate::plan::best::plan_is_best`]). On the write-premium
    /// regime the plan is committed to the trie state (with hysteresis and
    /// dwell) so subsequent [`Engine::observe`] calls report the placed nodes
    /// via `deepest_cached`; on other regimes it is advisory.
    pub fn plan(&mut self, now: R) -> (placements: Vec<Placement<R>>)
        requires
            old(self).wf(),
            old(self)@.prices.max_breakpoints < usize::MAX,
        ensures
            final(self).wf(),
            placements@ == old(self)@.ask(now).chosen(),
            final(self)@ == old(self)@.planned(now),
            final(self)@.prices == old(self)@.prices,
            final(self)@.cfg == old(self)@.cfg,
            final(self)@.trie.nodes.len() == old(self)@.trie.nodes.len(),
    {
        let ghost start = self@;
        let placements = plan_breakpoints(
            &self.trie,
            &self.prices,
            now,
            self.cfg.theta_up,
            self.cfg.theta_down,
        );
        if self.prices.regime() == Regime::WritePremium {
            let ghost pass = Pass::Displaced { picks: placements@ };
            let steps = self.displaced(&placements, now);
            let mut silent: Vec<Action<R>> = Vec::new();
            proof {
                start.steps_are_sound(pass, now);
                start.carried_keeps_alive(steps@);
                plan_is_sane(start.ask(now));
            }
            self.carry_out(&steps, &mut silent);
            let ghost dropped = self@;
            let mut i: usize = 0;
            assert(placements@.take(0) =~= Seq::empty());
            while i < placements.len()
                invariant
                    i <= placements.len(),
                    self.wf(),
                    start.ask(now).sane(
                        placements@,
                        start.prices.max_breakpoints as int,
                        start.prices.max_breakpoints as nat,
                    ),
                    self@ == dropped.marked(placements@.take(i as int), now),
                    self@.prices == start.prices,
                    self@.cfg == start.cfg,
                    self@.trie.nodes.len() == start.trie.nodes.len(),
                    forall|id: int|
                        0 <= id < start.trie.nodes.len() ==> (
                        #[trigger] self@.trie.nodes[id]).alive == start.trie.nodes[id].alive,
                decreases placements.len() - i,
            {
                let p = placements[i];
                proof {
                    assert(start.ask(now).pays(
                        placements@,
                        i as int,
                        start.prices.max_breakpoints as nat,
                    ));
                    assert(start.trie.live(p.node as int));
                    assert(placements@.take(i + 1).drop_last() =~= placements@.take(i as int));
                }
                let ghost here = self@;
                let step = if self.cached.contains(p.node) {
                    Step::Keep
                } else {
                    // Write-premium entries are refreshed free on read; their
                    // lifetime is not managed by the controller.
                    let ttl = match p.ttl_hours {
                        Some(ttl) => ttl,
                        None => R::from_int(0),
                    };
                    Step::Mark { at: now, ttl }
                };
                assert(step == here.mark_step(p, now));
                self.apply(p.node, step);
                i = i + 1;
            }
            assert(placements@.take(i as int) =~= placements@);
        }
        placements
    }
}

} // verus!
