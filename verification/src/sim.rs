//! ROI simulator: replay a traffic trace through the engine and the
//! alternatives, and report the actual dollars each would have spent.
//!
//! This is the product's proof engine. Point it at a captured production trace
//! (privacy-safe: block hashes only) or a synthetic workload from
//! [`crate::trace`], and it answers the only question that matters: *how much
//! would the engine have saved on this traffic, and how close to optimal is
//! it?*
//!
//! Policies compared (storage-metered / Gemini-style regime):
//!
//! - **NoCache**: pay full input price on every request (the floor).
//! - **CacheEverything**: cache each shared prefix on first sight, hold forever
//!   (the naive strawman most teams reach for).
//! - **StaticTtl(h)**: cache-everything but expire an idle prefix after a fixed
//!   hand-set TTL (the best a human typically does by hand).
//! - **Pcoe**: the real [`crate::Engine`], with an instantly-successful adapter
//!   (creates confirmed immediately).
//! - **ReferenceOracle**: per-family offline-optimal ski-rental, computed by DP
//!   with perfect hindsight. The benchmark the engine's competitive ratio is
//!   measured against.
//!
//! All policies pay the same per-request suffix cost (the non-cacheable tail),
//! so reported totals are real spend and differences are attributable purely
//! to cache management.
use vstd::prelude::*;

use crate::engine::laws::{names_nodes, node_of};
use crate::engine::{Action, Config, Engine};
use crate::number::{frac, ratio, Real};
use crate::plan::{mtok, mtok_of};
use crate::price::{PriceSheet, Prices};
use crate::sim::laws::deepest_worth_on_path;
use crate::sim::model::{
    deepest_worth, entered, holds, place, trie_of, uncached, Case, Interval,
    time_left, Play, Stay,
};
use crate::trace::{arrivals, Event};
use crate::trie::{NodeId, PrefixTrie, TrieModel};

pub mod benchmark;
pub mod billing;
pub mod families;
pub mod laws;
pub mod model;
pub mod oracle;
pub mod rules;
pub mod spending;

verus! {

/// A policy to simulate.
#[derive(Clone, Copy, Debug, PartialEq)]
pub enum Policy<R> {
    /// Never cache.
    NoCache,
    /// Cache each shared prefix on first sight; never delete.
    CacheEverything,
    /// Cache-everything with a fixed idle-TTL (hours) before deletion.
    StaticTtl(R),
    /// The real engine.
    Pcoe,
    /// Per-family offline-optimal ski-rental (perfect hindsight benchmark).
    ReferenceOracle,
}

/// Cost breakdown and operational stats from one policy run. Counts are held
/// at their limit.
#[derive(Clone, Copy, Debug)]
pub struct Report<R> {
    /// Total spend, dollars.
    pub total_cost: R,
    /// Spend on cache creations (writes), dollars.
    pub create_cost: R,
    /// Spend on storage (token-hours), dollars.
    pub storage_cost: R,
    /// Spend on request tokens (cached reads + uncached input), dollars.
    pub request_cost: R,
    /// Requests that read at least part of their prefix from cache.
    pub cached_requests: u64,
    /// Total requests.
    pub requests: u64,
    /// Cache create operations.
    pub creates: u64,
    /// Extend operations.
    pub extends: u64,
    /// Delete operations.
    pub deletes: u64,
    /// Cumulative token-hours held in cache.
    pub token_hours: R,
}

impl<R: Real> Default for Report<R> {
    fn default() -> (r: Self)
        ensures
            r == Report::<R>::blank(),
    {
        let zero = R::from_int(0);
        Report {
            total_cost: zero,
            create_cost: zero,
            storage_cost: zero,
            request_cost: zero,
            cached_requests: 0,
            requests: 0,
            creates: 0,
            extends: 0,
            deletes: 0,
            token_hours: zero,
        }
    }
}

impl<R: Real> Report<R> {
    /// The share of requests served (partly) from cache.
    pub open spec fn hits(self) -> R {
        if self.requests == 0 {
            R::int_of(0)
        } else {
            R::int_of(self.cached_requests).quot(R::int_of(self.requests))
        }
    }

    /// Fraction of requests served (partly) from cache.
    pub fn hit_rate(&self) -> (r: R)
        ensures
            r == self.hits(),
    {
        if self.requests == 0 {
            R::from_int(0)
        } else {
            R::from_int(self.cached_requests).over(R::from_int(self.requests))
        }
    }

    /// The percentage saved versus `baseline`, zero where that spent nothing.
    pub open spec fn saved(self, baseline: Report<R>) -> R {
        if baseline.total_cost.at_most(R::int_of(0)) {
            R::int_of(0)
        } else {
            R::int_of(100).prod(R::int_of(1).diff(self.total_cost.quot(baseline.total_cost)))
        }
    }

    /// Percent saved versus a baseline report.
    pub fn savings_vs(&self, baseline: &Report<R>) -> (r: R)
        ensures
            r == self.saved(*baseline),
    {
        if baseline.total_cost.is_le(R::from_int(0)) {
            R::from_int(0)
        } else {
            R::from_int(100).times(
                R::from_int(1).minus(self.total_cost.over(baseline.total_cost)),
            )
        }
    }

    /// Adds the storage of `tokens` from `opened` to `closed`.
    fn store(&mut self, prices: &PriceSheet<R>, opened: R, tokens: u64, closed: R)
        ensures
            *final(self) == old(self).stored(prices@, opened, tokens, closed),
    {
        let held = closed.minus(opened).max_with(R::from_int(0)).times(mtok(tokens));
        self.storage_cost = self.storage_cost.plus(held.times(storage(prices)));
        self.token_hours = self.token_hours.plus(held);
    }

    /// Adds a cache of `tokens` written.
    fn write(&mut self, prices: &PriceSheet<R>, tokens: u64)
        ensures
            *final(self) == old(self).written(prices@, tokens),
    {
        self.create_cost = self.create_cost.plus(
            mtok::<R>(tokens).times(prices.input_per_mtok),
        );
        self.creates = self.creates.saturating_add(1);
    }

    /// Adds a request of `total` tokens, `cached` of them read from a cache.
    fn serve(&mut self, prices: &PriceSheet<R>, total: u64, cached: u64)
        requires
            cached <= total,
        ensures
            *final(self) == old(self).served(prices@, total, cached),
    {
        self.request_cost = self.request_cost.plus(
            mtok::<R>(cached).times(prices.cached_read_per_mtok).plus(
                mtok::<R>(total - cached).times(prices.input_per_mtok),
            ),
        );
        if cached > 0 {
            self.cached_requests = self.cached_requests.saturating_add(1);
        }
        self.requests = self.requests.saturating_add(1);
    }

    /// Adds up the three kinds of spending.
    fn sum_up(&mut self)
        ensures
            *final(self) == old(self).summed(),
    {
        self.total_cost = self.create_cost.plus(self.storage_cost).plus(self.request_cost);
    }
}

/// The storage price, zero where there is none.
fn storage<R: Real>(prices: &PriceSheet<R>) -> (r: R)
    ensures
        r == prices@.storage(),
{
    match prices.storage_per_mtok_hour {
        Some(s) => s,
        None => R::from_int(0),
    }
}

/// The place of `node` in a ledger, if it is there.
fn find<T>(ledger: &Vec<(NodeId, T)>, node: NodeId) -> (r: Option<usize>)
    ensures
        match r {
            Some(i) => holds(ledger@, node) && i == place(ledger@, node),
            None => !holds(ledger@, node),
        },
{
    let mut i: usize = 0;
    assert(ledger@.skip(0) =~= ledger@);
    while i < ledger.len()
        invariant
            i <= ledger.len(),
            place(ledger@, node) == i + place(ledger@.skip(i as int), node),
        decreases ledger.len() - i,
    {
        assert(ledger@.skip(i as int).drop_first() =~= ledger@.skip(i + 1));
        if ledger[i].0 == node {
            return Some(i);
        }
        i = i + 1;
    }
    None
}

/// Replaces the entry of `node`, or adds it behind the others.
fn enter<T>(ledger: &mut Vec<(NodeId, T)>, node: NodeId, entry: T)
    ensures
        final(ledger)@ == entered(old(ledger)@, node, entry),
{
    match find(ledger, node) {
        Some(i) => {
            ledger[i] = (node, entry);
        },
        None => ledger.push((node, entry)),
    }
}

fn replay_no_cache<R: Real>(trace: &[Event<R>], prices: &PriceSheet<R>) -> (r: Report<R>)
    ensures
        forall|cfg: Config<R>| r == #[trigger] case(trace@, prices@, cfg).uncached_report(),
{
    let mut r: Report<R> = Report::default();
    let mut i: usize = 0;
    while i < trace.len()
        invariant
            i <= trace.len(),
            r == uncached(arrivals(trace@), prices@, i as nat),
        decreases trace.len() - i,
    {
        let e = &trace[i];
        assert(arrivals(trace@)[i as int] == e@);
        r.request_cost = r.request_cost.plus(
            mtok::<R>(e.total_tokens).times(prices.input_per_mtok),
        );
        r.requests = r.requests.saturating_add(1);
        i = i + 1;
    }
    r.total_cost = r.request_cost;
    r
}

/// A trace at given prices.
pub open spec fn case<R: Real>(trace: Seq<Event<R>>, prices: Prices<R>, cfg: Config<R>) -> Case<R> {
    Case { trace: arrivals(trace), prices, cfg }
}

/// Build a trie over the whole trace so baselines/oracle can identify the
/// deepest cacheable prefix node on each request path. Read-only lookups
/// afterwards (`peek_path`) don't perturb it.
fn build_trie<R: Real>(trace: &[Event<R>], cfg: &Config<R>) -> (trie: PrefixTrie<R>)
    requires
        forall|i: int|
            0 <= i < trace@.len() ==> (#[trigger] arrivals(trace@)[i]).blocks.len()
                * cfg.block_tokens <= u64::MAX,
    ensures
        trie.wf(),
        trie@.sized(),
        trie@ == trie_of(arrivals(trace@), *cfg, trace@.len()),
{
    let mut trie = PrefixTrie::new(cfg.block_tokens, cfg.tau_decay_hours, cfg.max_nodes);
    assert forall|id: int| #[trigger] trie@.live(id) implies trie@.tokens(id) <= u64::MAX by {
        assert(0 * cfg.block_tokens == 0) by (nonlinear_arith);
    }
    let mut i: usize = 0;
    while i < trace.len()
        invariant
            i <= trace.len(),
            forall|i: int|
                0 <= i < trace@.len() ==> (#[trigger] arrivals(trace@)[i]).blocks.len()
                    * cfg.block_tokens <= u64::MAX,
            trie.wf(),
            trie@.sized(),
            trie@.block_tokens == cfg.block_tokens,
            trie@ == trie_of(arrivals(trace@), *cfg, i as nat),
        decreases trace.len() - i,
    {
        let e = &trace[i];
        let ghost before = trie@;
        assert(arrivals(trace@)[i as int] == e@);
        trie.observe_path(&e.blocks, e.time_hours);
        proof {
            assert(e.blocks.len() <= u64::MAX);
            before.walk_is_sized(e.blocks@, e.time_hours);
            before.walk_is_kept(0, e.blocks@, e.time_hours);
        }
        i = i + 1;
    }
    trie
}

/// Deepest node on `path` that is worth caching for the baselines/oracle: it
/// meets the cacheable minimum **and** is genuinely shared (traversed by more
/// than one request). The shared-ness guard is what stops a naive baseline
/// from caching a unique per-request suffix; the engine avoids this via its
/// arrival-rate gate instead.
fn deepest_cacheable<R: Real>(
    trie: &PrefixTrie<R>,
    prices: &PriceSheet<R>,
    path: &Vec<NodeId>,
) -> (r: Option<NodeId>)
    requires
        trie@.sized(),
        forall|k: int| 0 <= k < path@.len() ==> trie@.live(#[trigger] path@[k] as int),
    ensures
        r == deepest_worth(trie@, prices@, path@),
        r is Some ==> trie@.live(r->0 as int),
{
    let mut i: usize = path.len();
    assert(path@.take(i as int) =~= path@);
    while i > 0
        invariant
            i <= path.len(),
            trie@.sized(),
            forall|k: int| 0 <= k < path@.len() ==> trie@.live(#[trigger] path@[k] as int),
            deepest_worth(trie@, prices@, path@) == deepest_worth(
                trie@,
                prices@,
                path@.take(i as int),
            ),
        decreases i,
    {
        let id: NodeId = path[i - 1];
        assert(trie@.live(path@[i - 1] as int));
        assert(path@.take(i as int).drop_last() =~= path@.take(i - 1));
        if trie.tokens(id) >= prices.min_cacheable_tokens && trie.node(id).stats.raw_count >= 2 {
            return Some(id);
        }
        i = i - 1;
    }
    None
}

/// Whether all nodes of a ledger are nodes of the trie.
spec fn known<R: Real, T>(t: TrieModel<R>, ledger: Seq<(NodeId, T)>) -> bool {
    forall|k: int| 0 <= k < ledger.len() ==> t.live((#[trigger] ledger[k]).0 as int)
}

/// Closes the stays that were idle for longer than `ttl` at `now`; storage
/// accrues until the entry lapsed.
fn expire<R: Real>(
    trie: &PrefixTrie<R>,
    prices: &PriceSheet<R>,
    live: &Vec<(NodeId, Stay<R>)>,
    r: &mut Report<R>,
    ttl: R,
    now: R,
    Ghost(c): Ghost<Case<R>>,
) -> (kept: Vec<(NodeId, Stay<R>)>)
    requires
        trie@ == c.trie(),
        trie@.sized(),
        prices@ == c.prices,
        known(trie@, live@),
    ensures
        (kept@, *final(r)) == c.expired(live@, live@.len(), *old(r), ttl, now),
        known(trie@, kept@),
{
    let ghost start = *r;
    let mut kept: Vec<(NodeId, Stay<R>)> = Vec::new();
    let mut i: usize = 0;
    while i < live.len()
        invariant
            i <= live.len(),
            trie@ == c.trie(),
            trie@.sized(),
            prices@ == c.prices,
            known(trie@, live@),
            known(trie@, kept@),
            (kept@, *r) == c.expired(live@, i as nat, start, ttl, now),
        decreases live.len() - i,
    {
        let (id, stay) = live[i];
        assert(trie@.live(live@[i as int].0 as int));
        if ttl.is_lt(now.minus(stay.last)) {
            r.store(prices, stay.opened, trie.tokens(id), stay.last.plus(ttl));
            r.deletes = r.deletes.saturating_add(1);
        } else {
            kept.push(live[i]);
        }
        i = i + 1;
    }
    kept
}

/// Where fewer requests are covered, all are not.
proof fn covers_fewer<R: Real>(c: Case<R>, ttl: Option<R>, few: nat, all: nat)
    requires
        few <= all,
        c.static_covers(ttl, all),
    ensures
        c.static_covers(ttl, few),
    decreases all - few,
{
    if few < all {
        covers_fewer(c, ttl, few, (all - 1) as nat);
    }
}

/// Closes everything still live at the end of the trace.
fn close_stays<R: Real>(
    trie: &PrefixTrie<R>,
    prices: &PriceSheet<R>,
    live: &Vec<(NodeId, Stay<R>)>,
    r: &mut Report<R>,
    ttl: Option<R>,
    end: R,
    Ghost(c): Ghost<Case<R>>,
)
    requires
        trie@ == c.trie(),
        trie@.sized(),
        prices@ == c.prices,
        end == c.end(),
        known(trie@, live@),
    ensures
        *final(r) == c.static_closed(ttl, live@, live@.len(), *old(r)),
{
    let ghost start = *r;
    let mut i: usize = 0;
    while i < live.len()
        invariant
            i <= live.len(),
            trie@ == c.trie(),
            trie@.sized(),
            prices@ == c.prices,
            end == c.end(),
            known(trie@, live@),
            *r == c.static_closed(ttl, live@, i as nat, start),
        decreases live.len() - i,
    {
        let (id, stay) = live[i];
        assert(trie@.live(live@[i as int].0 as int));
        let closed = match ttl {
            Some(h) => stay.last.plus(h).min_with(end).max_with(stay.opened),
            None => end,
        };
        r.store(prices, stay.opened, trie.tokens(id), closed);
        i = i + 1;
    }
}

/// Cache-everything (`ttl = None`) or static-idle-TTL (`ttl = Some(h)`). `None`
/// where a request reads more from a cache than it holds.
fn replay_static<R: Real>(
    trace: &[Event<R>],
    prices: &PriceSheet<R>,
    cfg: &Config<R>,
    ttl: Option<R>,
) -> (out: Option<Report<R>>)
    requires
        case(trace@, prices@, *cfg).fits(),
    ensures
        ({
            let c = case(trace@, prices@, *cfg);
            match out {
                Some(r) => c.static_covers(ttl, trace@.len()) && r == c.static_report(ttl),
                None => !c.static_covers(ttl, trace@.len()),
            }
        }),
{
    let ghost c = case(trace@, prices@, *cfg);
    let trie = build_trie(trace, cfg);
    let mut r: Report<R> = Report::default();
    // Per cached node: when it was opened and last hit.
    let mut live: Vec<(NodeId, Stay<R>)> = Vec::new();
    let end = if trace.len() == 0 {
        R::from_int(0)
    } else {
        trace[trace.len() - 1].time_hours
    };
    assert(trace@.len() > 0 ==> c.trace.last() == trace@[trace@.len() - 1]@);
    let mut i: usize = 0;
    while i < trace.len()
        invariant
            i <= trace.len(),
            c == case(trace@, prices@, *cfg),
            trie.wf(),
            trie@.sized(),
            trie@ == c.trie(),
            known(trie@, live@),
            c.static_covers(ttl, i as nat),
            (live@, r) == c.static_run(ttl, i as nat),
        decreases trace.len() - i,
    {
        let e = &trace[i];
        let now = e.time_hours;
        assert(c.trace[i as int] == e@);
        // Expire idle nodes (static TTL only).
        if let Some(h) = ttl {
            live = expire(&trie, prices, &live, &mut r, h, now, Ghost(c));
        }
        assert((live@, r) == c.static_ready(ttl, i as nat));
        let ghost ready = live@;
        let path = trie.peek_path(&e.blocks);
        let mut cached_tokens: u64 = 0;
        if let Some(id) = deepest_cacheable(&trie, prices, &path) {
            match find(&live, id) {
                Some(k) => {
                    live[k] = (id, Stay { opened: live[k].1.opened, last: now });
                    cached_tokens = trie.tokens(id);
                },
                None => {
                    // Create on first sight (or after expiry). The creating
                    // request itself reads uncached (the create is for future
                    // requests), matching the engine's semantics.
                    r.write(prices, trie.tokens(id));
                    live.push((id, Stay { opened: now, last: now }));
                },
            }
        }
        assert(cached_tokens == c.static_hit(ready, e@));
        if cached_tokens > e.total_tokens {
            proof {
                if c.static_covers(ttl, trace@.len()) {
                    covers_fewer(c, ttl, (i + 1) as nat, trace@.len());
                }
            }
            return None;
        }
        r.serve(prices, e.total_tokens, cached_tokens);
        assert((live@, r) == c.static_step(ready, c.static_ready(ttl, i as nat).1, e@));
        i = i + 1;
    }
    close_stays(&trie, prices, &live, &mut r, ttl, end, Ghost(c));
    r.sum_up();
    Some(r)
}

/// The requests of each family, in order, and what the requests without one
/// cost.
fn group<R: Real>(
    trace: &[Event<R>],
    prices: &PriceSheet<R>,
    trie: &PrefixTrie<R>,
    Ghost(c): Ghost<Case<R>>,
) -> (out: (Vec<Vec<usize>>, R))
    requires
        c.trace == arrivals(trace@),
        c.prices == prices@,
        trie.wf(),
        trie@.sized(),
        trie@ == c.trie(),
    ensures
        out.0@.len() == trie@.nodes.len(),
        forall|node: int|
            0 <= node < trie@.nodes.len() ==> (#[trigger] out.0@[node])@ == c.members(
                node as usize,
                trace@.len(),
            ),
        out.1 == c.loose_cost(trace@.len()),
{
    let total: usize = trie.nodes.len();
    let mut groups: Vec<Vec<usize>> = Vec::new();
    while groups.len() < total
        invariant
            groups.len() <= total,
            forall|node: int|
                0 <= node < groups.len() ==> (#[trigger] groups@[node])@ == c.members(
                    node as usize,
                    0,
                ),
        decreases total - groups.len(),
    {
        groups.push(Vec::new());
        assert(groups@[groups.len() - 1]@ =~= Seq::empty());
    }
    let mut cost = R::from_int(0);
    let mut i: usize = 0;
    while i < trace.len()
        invariant
            i <= trace.len(),
            c.trace == arrivals(trace@),
            c.prices == prices@,
            trie.wf(),
            trie@.sized(),
            trie@ == c.trie(),
            total == trie@.nodes.len(),
            groups.len() == total,
            forall|node: int|
                0 <= node < total ==> (#[trigger] groups@[node])@ == c.members(
                    node as usize,
                    i as nat,
                ),
            cost == c.loose_cost(i as nat),
        decreases trace.len() - i,
    {
        let e = &trace[i];
        assert(c.trace[i as int] == e@);
        let ghost before = groups@;
        let path = trie.peek_path(&e.blocks);
        match deepest_cacheable(trie, prices, &path) {
            Some(id) => {
                groups[id].push(i);
            },
            None => {
                // No cacheable prefix: always full input.
                cost = cost.plus(mtok::<R>(e.total_tokens).times(prices.input_per_mtok));
            },
        }
        i = i + 1;
        assert forall|node: int| 0 <= node < total implies (#[trigger] groups@[node])@
            == c.members(node as usize, i as nat) by {
            assert(before[node]@ == c.members(node as usize, (i - 1) as nat));
        }
    }
    (groups, cost)
}

/// Adds the suffixes of the requests `idxs` (the non-cacheable tail is paid on
/// every request either way).
fn add_suffixes<R: Real>(
    trace: &[Event<R>],
    prices: &PriceSheet<R>,
    node: NodeId,
    tokens: u64,
    idxs: &Vec<usize>,
    cost: R,
    Ghost(c): Ghost<Case<R>>,
) -> (r: R)
    requires
        c.trace == arrivals(trace@),
        c.prices == prices@,
        tokens == c.tokens(node),
        forall|k: int| 0 <= k < idxs@.len() ==> (#[trigger] idxs@[k]) < trace@.len(),
    ensures
        r == c.suffix_costs(node, idxs@, idxs@.len(), cost),
{
    let mut acc = cost;
    let mut k: usize = 0;
    while k < idxs.len()
        invariant
            k <= idxs.len(),
            c.trace == arrivals(trace@),
            c.prices == prices@,
            tokens == c.tokens(node),
            forall|k: int| 0 <= k < idxs@.len() ==> (#[trigger] idxs@[k]) < trace@.len(),
            acc == c.suffix_costs(node, idxs@, k as nat, cost),
        decreases idxs.len() - k,
    {
        let at: usize = idxs[k];
        assert(c.trace[at as int] == trace@[at as int]@);
        let suffix: u64 = trace[at].total_tokens.saturating_sub(tokens);
        acc = acc.plus(mtok::<R>(suffix).times(prices.input_per_mtok));
        k = k + 1;
    }
    acc
}

/// The least the prefix of the requests `idxs` costs, by an O(n) ski-rental DP:
///
/// `dp[i] = min(dp[i-1] + input,  const_i + min_{j<=i} h(j))`,
/// `h(j) = dp[j-1] - read*j - store_rate*t[j]`   (`dp[-1] = 0`).
fn ski_rental<R: Real>(
    trace: &[Event<R>],
    prices: &PriceSheet<R>,
    node: NodeId,
    tokens: u64,
    idxs: &Vec<usize>,
    Ghost(c): Ghost<Case<R>>,
) -> (r: R)
    requires
        c.trace == arrivals(trace@),
        c.prices == prices@,
        tokens == c.tokens(node),
        forall|k: int| 0 <= k < idxs@.len() ==> (#[trigger] idxs@[k]) < trace@.len(),
    ensures
        r == c.hindsight(node, idxs@, idxs@.len()).0,
{
    let m = mtok::<R>(tokens);
    let read = m.times(prices.cached_read_per_mtok);
    let input = m.times(prices.input_per_mtok);
    let store_rate = m.times(storage(prices));
    let mut dp = R::from_int(0);
    let mut run_min = R::infinity();
    let mut k: usize = 0;
    while k < idxs.len()
        invariant
            k <= idxs.len(),
            c.trace == arrivals(trace@),
            c.prices == prices@,
            tokens == c.tokens(node),
            m == mtok_of::<R>(tokens),
            read == m.prod(c.prices.cached_read_per_mtok),
            input == m.prod(c.prices.input_per_mtok),
            store_rate == m.prod(c.prices.storage()),
            forall|k: int| 0 <= k < idxs@.len() ==> (#[trigger] idxs@[k]) < trace@.len(),
            (dp, run_min) == c.hindsight(node, idxs@, k as nat),
        decreases idxs.len() - k,
    {
        let at: usize = idxs[k];
        assert(c.trace[at as int] == trace@[at as int]@);
        let i = R::from_int(k as u64);
        let store = store_rate.times(trace[at].time_hours);
        run_min = run_min.min_with(dp.minus(read.times(i)).minus(store));
        let cached_end = input.plus(read.times(i.plus(R::from_int(1)))).plus(store).plus(run_min);
        dp = cached_end.min_with(dp.plus(input));
        k = k + 1;
    }
    dp
}

/// The requests that share a prefix are requests.
proof fn members_are_requests<R: Real>(c: Case<R>, node: NodeId, upto: nat)
    requires
        upto <= c.trace.len() <= usize::MAX,
    ensures
        forall|k: int|
            0 <= k < c.members(node, upto).len() ==> (#[trigger] c.members(node, upto)[k]) < upto,
    decreases upto,
{
    if upto > 0 {
        let before = c.members(node, (upto - 1) as nat);
        let all = c.members(node, upto);
        members_are_requests(c, node, (upto - 1) as nat);
        assert forall|k: int| 0 <= k < all.len() implies (#[trigger] all[k]) < upto by {
            if k < before.len() {
                assert(all[k] == before[k]);
            }
        }
    }
}

/// A request that shares a prefix shares a node of the trie.
proof fn members_are_live<R: Real>(c: Case<R>, node: NodeId, upto: nat)
    requires
        c.trie().wf(),
        upto <= c.trace.len(),
        c.members(node, upto).len() > 0,
    ensures
        c.trie().live(node as int),
    decreases upto,
{
    let e = c.trace[upto - 1];
    if c.family(e) == Some(node) {
        c.trie().peeked_is_live(0, e.blocks);
        deepest_worth_on_path(c.trie(), c.prices, c.trie().peeked_path(0, e.blocks));
    } else {
        members_are_live(c, node, (upto - 1) as nat);
    }
}

/// Per-family offline-optimal ski-rental (perfect hindsight).
///
/// Groups requests by their deepest cacheable prefix node and runs the O(n)
/// ski-rental DP on each group's timestamps. Requests with no cacheable prefix
/// pay full input. Suffix cost is added uniformly so totals compare
/// like-for-like. The oracle's op counts and hit rate aren't meaningfully
/// defined by the DP (it's a cost lower bound), so those fields stay at zero.
fn replay_oracle<R: Real>(trace: &[Event<R>], prices: &PriceSheet<R>, cfg: &Config<R>) -> (r:
    Report<R>)
    requires
        case(trace@, prices@, *cfg).fits(),
    ensures
        r == case(trace@, prices@, *cfg).oracle_report(),
{
    let ghost c = case(trace@, prices@, *cfg);
    let trie = build_trie(trace, cfg);
    let mut r: Report<R> = Report::default();
    r.requests = trace.len() as u64;
    let (groups, loose) = group(trace, prices, &trie, Ghost(c));
    let mut cost = loose;
    let total: usize = trie.nodes.len();
    let mut node: NodeId = 0;
    while node < total
        invariant
            node <= total,
            total == trie@.nodes.len(),
            c == case(trace@, prices@, *cfg),
            trie.wf(),
            trie@.sized(),
            trie@ == c.trie(),
            trace@.len() <= usize::MAX,
            groups@.len() == total,
            forall|node: int|
                0 <= node < total ==> (#[trigger] groups@[node])@ == c.members(
                    node as usize,
                    trace@.len(),
                ),
            loose == c.loose_cost(trace@.len()),
            cost == c.family_costs(node as nat, loose),
        decreases total - node,
    {
        let idxs = &groups[node];
        if idxs.len() > 0 {
            proof {
                assert(idxs@ == c.members(node, trace@.len()));
                members_are_requests(c, node, trace@.len());
                members_are_live(c, node, trace@.len());
            }
            let tokens: u64 = trie.tokens(node);
            cost = add_suffixes(trace, prices, node, tokens, idxs, cost, Ghost(c));
            cost = cost.plus(ski_rental(trace, prices, node, tokens, idxs, Ghost(c)));
        }
        node = node + 1;
    }
    r.request_cost = cost;
    r.total_cost = r.request_cost;
    r
}

/// A replay of the engine.
struct Replay<R> {
    eng: Engine<R>,
    r: Report<R>,
    /// Open storage intervals per node. The provider-side expiry is tracked
    /// here so that a cache the engine lets lapse *silently* (its TTL runs out
    /// mid-hold without an explicit ski-rental Delete; nothing to delete
    /// remotely) is still billed to its true expiry, not left open. Relying on
    /// Delete actions alone would leak such intervals.
    open: Vec<(NodeId, Interval<R>)>,
    clock: R,
    tick_dt: R,
    tau_hold: R,
}

impl<R: Real> Replay<R> {
    spec fn view(&self) -> Play<R> {
        Play { eng: self.eng@, r: self.r, open: self.open@, clock: self.clock }
    }

    /// Whether this is a replay of the case `c`.
    spec fn of(&self, c: Case<R>) -> bool {
        &&& self.eng.wf()
        &&& self.eng@.prices == c.prices
        &&& self.eng@.cfg == c.cfg
        &&& self.tick_dt == c.tick_dt()
        &&& self.tau_hold == c.tau_hold()
    }

    fn new(trace: &[Event<R>], prices: &PriceSheet<R>, cfg: &Config<R>) -> (s: Self)
        ensures
            s.of(case(trace@, prices@, *cfg)),
            s@ == case(trace@, prices@, *cfg).opening(),
    {
        let ghost c = case(trace@, prices@, *cfg);
        let clock = if trace.len() == 0 {
            R::from_int(0)
        } else {
            trace[0].time_hours
        };
        assert(trace@.len() > 0 ==> c.trace[0] == trace@[0]@);
        let tau_hold = match prices.tau_hold_hours() {
            Some(tau) => tau,
            None => R::from_int(0),
        };
        let s = Replay {
            eng: Engine::new(prices.clone(), *cfg),
            r: Report::default(),
            open: Vec::new(),
            clock,
            tick_dt: cfg.extend_lead_hours.max_with(ratio(1, 60)),
            tau_hold,
        };
        assert(s@.open =~= Seq::empty());
        s
    }

    /// Closes any interval whose provider TTL has lapsed by the clock, billing
    /// to the exact expiry: this is the silent provider-side auto-expiry.
    fn sweep(&mut self, prices: &PriceSheet<R>, Ghost(c): Ghost<Case<R>>)
        requires
            old(self).of(c),
            prices@ == c.prices,
        ensures
            final(self).of(c),
            final(self)@ == c.sweep(old(self)@),
    {
        let ghost start = self@;
        let mut kept: Vec<(NodeId, Interval<R>)> = Vec::new();
        let mut i: usize = 0;
        while i < self.open.len()
            invariant
                i <= self.open.len(),
                self.of(c),
                prices@ == c.prices,
                self.open@ == start.open,
                self.eng@ == start.eng,
                self.clock == start.clock,
                (kept@, self.r) == c.lapsed(start.open, i as nat, start.r, start.clock),
            decreases self.open.len() - i,
        {
            let (_, at) = self.open[i];
            if at.expires.is_le(self.clock) {
                self.r.store(prices, at.opened, at.tokens, at.expires);
            } else {
                kept.push(self.open[i]);
            }
            i = i + 1;
        }
        self.open = kept;
    }

    /// Opens an interval. A request-driven create and a predicted pre-create
    /// have the same cost shape (write once at input rate, then storage runs).
    /// The pre-create's payoff is that the next request reads cached instead of
    /// paying the cold-start miss: it shows up as a lower request cost, not
    /// here.
    fn open(&mut self, prices: &PriceSheet<R>, node: NodeId, tokens: u64, now: R, Ghost(c): Ghost<
        Case<R>,
    >)
        requires
            old(self).of(c),
            prices@ == c.prices,
        ensures
            final(self).of(c),
            final(self)@ == c.opened(old(self)@, node, tokens, now),
    {
        self.r.write(prices, tokens);
        enter(
            &mut self.open,
            node,
            Interval { opened: now, tokens, expires: now.plus(self.tau_hold) },
        );
    }

    /// Executes one action on the provider's side.
    fn apply(&mut self, prices: &PriceSheet<R>, a: &Action<R>, now: R, Ghost(c): Ghost<Case<R>>)
        requires
            old(self).of(c),
            prices@ == c.prices,
        ensures
            final(self).of(c),
            final(self)@ == c.applied(old(self)@, *a, now),
    {
        match *a {
            Action::Create { node, tokens, ttl_hours: _ } => self.open(
                prices,
                node,
                tokens,
                now,
                Ghost(c),
            ),
            Action::PreCreate { node, tokens, ttl_hours: _ } => self.open(
                prices,
                node,
                tokens,
                now,
                Ghost(c),
            ),
            Action::Extend { node, expires_at_hours } => {
                self.r.extends = self.r.extends.saturating_add(1);
                if let Some(k) = find(&self.open, node) {
                    let at = self.open[k].1;
                    self.open[k] = (
                        node,
                        Interval {
                            opened: at.opened,
                            tokens: at.tokens,
                            expires: expires_at_hours,
                        },
                    );
                }
            },
            Action::Delete { node } => {
                self.r.deletes = self.r.deletes.saturating_add(1);
                if let Some(k) = find(&self.open, node) {
                    let (_, at) = self.open.remove(k);
                    self.r.store(prices, at.opened, at.tokens, now);
                }
            },
        }
    }

    /// Executes actions and confirms the creations among them at once.
    fn settle(
        &mut self,
        prices: &PriceSheet<R>,
        actions: &Vec<Action<R>>,
        now: R,
        Ghost(c): Ghost<Case<R>>,
    )
        requires
            old(self).of(c),
            prices@ == c.prices,
            names_nodes(actions@, old(self).eng@.trie.nodes.len()),
        ensures
            final(self).of(c),
            final(self)@ == c.settled(old(self)@, actions@, now),
    {
        let ghost start = self@;
        let mut i: usize = 0;
        assert(actions@.take(0) =~= Seq::empty());
        while i < actions.len()
            invariant
                i <= actions.len(),
                self.of(c),
                prices@ == c.prices,
                names_nodes(actions@, start.eng.trie.nodes.len()),
                self.eng@.trie.nodes.len() == start.eng.trie.nodes.len(),
                self@ == c.settled(start, actions@.take(i as int), now),
            decreases actions.len() - i,
        {
            let ghost here = self@;
            assert(actions@.take(i + 1).drop_last() =~= actions@.take(i as int));
            assert(node_of(actions@[i as int]) < start.eng.trie.nodes.len());
            match actions[i] {
                Action::Create { node, .. } => self.eng.confirm_create(node, now),
                Action::PreCreate { node, .. } => self.eng.confirm_create(node, now),
                _ => {},
            }
            self.apply(prices, &actions[i], now, Ghost(c));
            i = i + 1;
        }
        assert(actions@.take(i as int) =~= actions@);
    }

    /// One maintenance tick. It can emit a predictive PreCreate, which is
    /// confirmed like a request-driven create.
    fn tick(&mut self, prices: &PriceSheet<R>, Ghost(c): Ghost<Case<R>>)
        requires
            old(self).of(c),
            prices@ == c.prices,
        ensures
            final(self).of(c),
            final(self)@ == c.ticked(old(self)@),
    {
        let now = self.clock;
        let ghost before = self.eng@;
        let actions = self.eng.tick(now);
        proof {
            before.tick_names_nodes(now);
        }
        self.settle(prices, &actions, now, Ghost(c));
        assert(self.clock == now) by {
            c.settled_keeps_clock(
                (Play { eng: before.ticked(now).0, ..old(self)@ }),
                actions@,
                now,
            );
        }
        self.sweep(prices, Ghost(c));
    }

    /// Drives maintenance ticks up to `now`.
    fn drive(&mut self, prices: &PriceSheet<R>, now: R, Ghost(c): Ghost<Case<R>>)
        requires
            old(self).of(c),
            prices@ == c.prices,
        ensures
            final(self).of(c),
            final(self)@ == c.driven(old(self)@, now),
    {
        let ghost start = self@;
        while self.clock.is_lt(now)
            invariant_except_break
                c.driven(start, now) == c.driven(self@, now),
            invariant
                self.of(c),
                prices@ == c.prices,
            ensures
                self@ == c.driven(start, now),
            decreases time_left(self.clock, now),
        {
            let clock = self.clock;
            let next = clock.plus(self.tick_dt);
            proof {
                R::below_ranks_before(clock, now);
            }
            let ghost here = self@;
            self.tick(prices, Ghost(c));
            if !clock.ranks_before(next) {
                break;
            }
            self.clock = next;
            assert(self@ == (Play { clock: next, ..c.ticked(here) }));
        }
    }

    /// One request of the trace.
    fn request(&mut self, prices: &PriceSheet<R>, e: &Event<R>, Ghost(c): Ghost<Case<R>>)
        requires
            old(self).of(c),
            prices@ == c.prices,
            e.blocks@.len() * c.cfg.block_tokens <= u64::MAX,
        ensures
            final(self).of(c),
            final(self)@ == c.requested(old(self)@, e@),
    {
        let now = e.time_hours;
        let obs = self.eng.observe(&e.blocks, now);
        self.settle(prices, &obs.actions, now, Ghost(c));
        let cached: u64 = if obs.cached_tokens <= e.total_tokens {
            obs.cached_tokens
        } else {
            e.total_tokens
        };
        self.r.serve(prices, e.total_tokens, cached);
    }

    /// Executes the extensions and deletions among actions.
    fn wind_down(
        &mut self,
        prices: &PriceSheet<R>,
        actions: &Vec<Action<R>>,
        now: R,
        Ghost(c): Ghost<Case<R>>,
    )
        requires
            old(self).of(c),
            prices@ == c.prices,
        ensures
            final(self).of(c),
            final(self)@ == c.wound_down(old(self)@, actions@, now),
    {
        let ghost start = self@;
        let mut i: usize = 0;
        assert(actions@.take(0) =~= Seq::empty());
        while i < actions.len()
            invariant
                i <= actions.len(),
                self.of(c),
                prices@ == c.prices,
                self@ == c.wound_down(start, actions@.take(i as int), now),
            decreases actions.len() - i,
        {
            assert(actions@.take(i + 1).drop_last() =~= actions@.take(i as int));
            match actions[i] {
                Action::Create { .. } => {},
                Action::PreCreate { .. } => {},
                _ => self.apply(prices, &actions[i], now, Ghost(c)),
            }
            i = i + 1;
        }
        assert(actions@.take(i as int) =~= actions@);
    }

    /// Keeps ticking past the last event until every cache is closed, so
    /// end-of-trace storage is billed to the ski-rental exit, not the horizon.
    /// Only *closes out* existing caches: a predictive pre-create fired after
    /// the last event serves no request (there is none left in the trace), so
    /// opening new intervals here would bill speculative storage that never
    /// happens in reality. In production every predicted return has real
    /// traffic behind it; the drain is a pure end-of-trace artifact.
    fn drain(&mut self, prices: &PriceSheet<R>, Ghost(c): Ghost<Case<R>>)
        requires
            old(self).of(c),
            prices@ == c.prices,
        ensures
            final(self).of(c),
            final(self)@ == c.drained(old(self)@, 100_000),
    {
        let ghost start = self@;
        let mut guard: u64 = 0;
        while self.open.len() > 0 && guard < 100_000
            invariant
                guard <= 100_000,
                self.of(c),
                prices@ == c.prices,
                c.drained(start, 100_000) == c.drained(self@, (100_000 - guard) as nat),
            decreases 100_000 - guard,
        {
            let clock = self.clock;
            let ghost here = self@;
            let actions = self.eng.tick(clock);
            proof {
                here.eng.tick_names_nodes(clock);
            }
            self.wind_down(prices, &actions, clock, Ghost(c));
            assert(self.clock == clock) by {
                c.wound_down_keeps_clock(
                    (Play { eng: here.eng.ticked(clock).0, ..here }),
                    actions@,
                    clock,
                );
            }
            self.sweep(prices, Ghost(c));
            self.clock = clock.plus(self.tick_dt);
            guard = guard + 1;
        }
    }
}

/// Replay through the real engine with an instantly-successful adapter.
fn replay_pcoe<R: Real>(trace: &[Event<R>], prices: &PriceSheet<R>, cfg: &Config<R>) -> (r: Report<
    R,
>)
    requires
        case(trace@, prices@, *cfg).fits(),
    ensures
        r == case(trace@, prices@, *cfg).engine_report(),
{
    let ghost c = case(trace@, prices@, *cfg);
    let mut p = Replay::new(trace, prices, cfg);
    let mut i: usize = 0;
    while i < trace.len()
        invariant
            i <= trace.len(),
            c == case(trace@, prices@, *cfg),
            c.fits(),
            p.of(c),
            p@ == c.played(i as nat),
        decreases trace.len() - i,
    {
        let e = &trace[i];
        assert(c.trace[i as int] == e@);
        p.drive(prices, e.time_hours, Ghost(c));
        p.request(prices, e, Ghost(c));
        i = i + 1;
    }
    p.drain(prices, Ghost(c));
    // Anything still open is closed at the final tick.
    let mut r = p.r;
    let mut k: usize = 0;
    while k < p.open.len()
        invariant
            k <= p.open.len(),
            prices@ == c.prices,
            r == c.closed(p.open@, k as nat, p.r, p.clock),
        decreases p.open.len() - k,
    {
        let (_, at) = p.open[k];
        r.store(prices, at.opened, at.tokens, p.clock);
        k = k + 1;
    }
    r.sum_up();
    r
}

/// Whether every request of a trace has a length in tokens that fits.
fn fits<R: Real>(trace: &[Event<R>], prices: &PriceSheet<R>, cfg: &Config<R>) -> (r: bool)
    ensures
        r == case(trace@, prices@, *cfg).fits(),
{
    let ghost c = case(trace@, prices@, *cfg);
    let mut i: usize = 0;
    while i < trace.len()
        invariant
            i <= trace.len(),
            c == case(trace@, prices@, *cfg),
            forall|k: int|
                0 <= k < i ==> (#[trigger] c.trace[k]).blocks.len() * c.cfg.block_tokens
                    <= u64::MAX,
        decreases trace.len() - i,
    {
        assert(c.trace[i as int] == trace@[i as int]@);
        let n: u64 = trace[i].blocks.len() as u64;
        match n.checked_mul(cfg.block_tokens) {
            Some(_) => {},
            None => {
                return false;
            },
        }
        i = i + 1;
    }
    true
}

/// Run a single policy on `trace`; `None` where the trace cannot be replayed
/// (a prefix length in tokens that does not fit, or a request that would read
/// more from a static cache than it holds).
pub fn try_replay<R: Real>(
    trace: &[Event<R>],
    prices: &PriceSheet<R>,
    cfg: &Config<R>,
    policy: Policy<R>,
) -> (out: Option<Report<R>>)
    ensures
        ({
            let c = case(trace@, prices@, *cfg);
            match out {
                Some(r) => c.replayable(policy) && r == c.report(policy),
                None => !c.replayable(policy),
            }
        }),
{
    let ghost c = case(trace@, prices@, *cfg);
    if let Policy::NoCache = policy {
        let r = replay_no_cache(trace, prices);
        assert(r == c.uncached_report());
        return Some(r);
    }
    if !fits(trace, prices, cfg) {
        return None;
    }
    match policy {
        Policy::NoCache => None,
        Policy::Pcoe => Some(replay_pcoe(trace, prices, cfg)),
        Policy::ReferenceOracle => Some(replay_oracle(trace, prices, cfg)),
        Policy::CacheEverything => replay_static(trace, prices, cfg, None),
        Policy::StaticTtl(ttl) => replay_static(trace, prices, cfg, Some(ttl)),
    }
}

/// Run a single policy on `trace`.
pub fn replay<R: Real>(
    trace: &[Event<R>],
    prices: &PriceSheet<R>,
    cfg: &Config<R>,
    policy: Policy<R>,
) -> (r: Report<R>)
    requires
        case(trace@, prices@, *cfg).replayable(policy),
    ensures
        r == case(trace@, prices@, *cfg).report(policy),
{
    match try_replay(trace, prices, cfg, policy) {
        Some(r) => r,
        None => Report::default(),
    }
}

/// All policies run on one trace, plus derived ratios.
#[derive(Clone, Debug)]
pub struct Comparison<R> {
    /// One report per policy, in a stable order.
    pub reports: Vec<(Policy<R>, Report<R>)>,
}

/// Whether two policies are the same.
pub open spec fn same_policy<R: Real>(p: Policy<R>, q: Policy<R>) -> bool {
    match (p, q) {
        (Policy::NoCache, Policy::NoCache) => true,
        (Policy::CacheEverything, Policy::CacheEverything) => true,
        (Policy::StaticTtl(a), Policy::StaticTtl(b)) => a.same(b),
        (Policy::Pcoe, Policy::Pcoe) => true,
        (Policy::ReferenceOracle, Policy::ReferenceOracle) => true,
        _ => false,
    }
}

/// The first report of a policy.
pub open spec fn report_of<R: Real>(
    reports: Seq<(Policy<R>, Report<R>)>,
    p: Policy<R>,
) -> Option<Report<R>>
    decreases reports.len(),
{
    if reports.len() == 0 {
        None
    } else if same_policy(reports[0].0, p) {
        Some(reports[0].1)
    } else {
        report_of(reports.drop_first(), p)
    }
}

/// The ratio of what the engine spent to what hindsight would have.
pub open spec fn ratio_of<R: Real>(reports: Seq<(Policy<R>, Report<R>)>) -> Option<R> {
    match (report_of(reports, Policy::Pcoe), report_of(reports, Policy::ReferenceOracle)) {
        (Some(p), Some(o)) => if R::int_of(0).below(o.total_cost) {
            Some(p.total_cost.quot(o.total_cost))
        } else {
            None
        },
        _ => None,
    }
}

impl<R: Real> Comparison<R> {
    fn is_same(p: &Policy<R>, q: &Policy<R>) -> (r: bool)
        ensures
            r == same_policy(*p, *q),
    {
        match (p, q) {
            (Policy::NoCache, Policy::NoCache) => true,
            (Policy::CacheEverything, Policy::CacheEverything) => true,
            (Policy::StaticTtl(a), Policy::StaticTtl(b)) => a.is_same(*b),
            (Policy::Pcoe, Policy::Pcoe) => true,
            (Policy::ReferenceOracle, Policy::ReferenceOracle) => true,
            _ => false,
        }
    }

    /// The report for a policy, if present.
    pub fn get(&self, p: Policy<R>) -> (r: Option<&Report<R>>)
        ensures
            match r {
                Some(x) => report_of(self.reports@, p) == Some(*x),
                None => report_of(self.reports@, p) is None,
            },
    {
        let mut i: usize = 0;
        assert(self.reports@.skip(0) =~= self.reports@);
        while i < self.reports.len()
            invariant
                i <= self.reports.len(),
                report_of(self.reports@, p) == report_of(self.reports@.skip(i as int), p),
            decreases self.reports.len() - i,
        {
            assert(self.reports@.skip(i as int).drop_first() =~= self.reports@.skip(i + 1));
            if Self::is_same(&self.reports[i].0, &p) {
                return Some(&self.reports[i].1);
            }
            i = i + 1;
        }
        None
    }

    /// The engine's competitive ratio: `pcoe_cost / oracle_cost` (1 = optimal).
    /// Note the oracle is a per-family reference, not a global optimum, so a
    /// ratio slightly below 1 is possible when the engine exploits shared
    /// ancestors the per-family oracle does not.
    pub fn competitive_ratio(&self) -> (r: Option<R>)
        ensures
            r == ratio_of(self.reports@),
    {
        match (self.get(Policy::Pcoe), self.get(Policy::ReferenceOracle)) {
            (Some(p), Some(o)) => if R::from_int(0).is_lt(o.total_cost) {
                Some(p.total_cost.over(o.total_cost))
            } else {
                None
            },
            _ => None,
        }
    }
}

/// The policies that are compared, in order.
pub open spec fn line_up<R: Real>() -> Seq<Policy<R>> {
    seq![
        Policy::NoCache,
        Policy::CacheEverything,
        Policy::StaticTtl(frac(1, 1)),
        Policy::Pcoe,
        Policy::ReferenceOracle,
    ]
}

impl<R: Real> Case<R> {
    /// What each of the compared policies spends.
    pub open spec fn comparison(self) -> Seq<(Policy<R>, Report<R>)> {
        line_up::<R>().map_values(|p: Policy<R>| (p, self.report(p)))
    }

    /// Whether all the compared policies can be replayed.
    pub open spec fn comparable(self) -> bool {
        forall|i: int| 0 <= i < 5 ==> self.replayable(#[trigger] line_up::<R>()[i])
    }
}

/// Run every policy on `trace`; `None` where one of them cannot be replayed.
pub fn try_compare<R: Real>(trace: &[Event<R>], prices: &PriceSheet<R>, cfg: &Config<R>) -> (out:
    Option<Comparison<R>>)
    ensures
        ({
            let c = case(trace@, prices@, *cfg);
            match out {
                Some(x) => c.comparable() && x.reports@ == c.comparison(),
                None => !c.comparable(),
            }
        }),
{
    let ghost c = case(trace@, prices@, *cfg);
    let policies: [Policy<R>; 5] = [
        Policy::NoCache,
        Policy::CacheEverything,
        Policy::StaticTtl(ratio(1, 1)),
        Policy::Pcoe,
        Policy::ReferenceOracle,
    ];
    assert(policies@ =~= line_up::<R>());
    let mut reports: Vec<(Policy<R>, Report<R>)> = Vec::new();
    let mut i: usize = 0;
    while i < 5
        invariant
            i <= 5,
            c == case(trace@, prices@, *cfg),
            policies@ == line_up::<R>(),
            forall|k: int| 0 <= k < i ==> c.replayable(#[trigger] line_up::<R>()[k]),
            reports@ == c.comparison().take(i as int),
        decreases 5 - i,
    {
        let p = policies[i];
        assert(p == line_up::<R>()[i as int]);
        match try_replay(trace, prices, cfg, p) {
            Some(r) => reports.push((p, r)),
            None => {
                return None;
            },
        }
        i = i + 1;
        assert(reports@ =~= c.comparison().take(i as int));
    }
    assert(reports@ =~= c.comparison());
    Some(Comparison { reports })
}

/// Run every policy on `trace` and return the comparison.
pub fn compare<R: Real>(trace: &[Event<R>], prices: &PriceSheet<R>, cfg: &Config<R>) -> (r:
    Comparison<R>)
    requires
        case(trace@, prices@, *cfg).comparable(),
    ensures
        r.reports@ == case(trace@, prices@, *cfg).comparison(),
{
    match try_compare(trace, prices, cfg) {
        Some(r) => r,
        None => Comparison { reports: Vec::new() },
    }
}

} // verus!
