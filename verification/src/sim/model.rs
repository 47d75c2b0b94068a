//! What each policy spends, stated over the events of a trace.
use vstd::prelude::*;

use crate::engine::model::EngineModel;
use crate::engine::{Action, Config};
use crate::number::{frac, min_u64, Real};
use crate::plan::mtok_of;
use crate::price::Prices;
use crate::sim::{Policy, Report};
use crate::trace::Arrival;
use crate::trie::{NodeId, TrieModel};

verus! {

/// A count one higher, held at its limit.
pub open spec fn bumped(n: u64) -> u64 {
    if n == u64::MAX {
        n
    } else {
        (n + 1) as u64
    }
}

/// The interval during which a cache is open.
#[derive(Clone, Copy, Debug)]
pub struct Interval<R> {
    /// When it was opened, hours.
    pub opened: R,
    /// How many tokens it holds.
    pub tokens: u64,
    /// When it lapses unless it is kept alive, hours.
    pub expires: R,
}

/// The stay of a cache that is held by an idle time.
#[derive(Clone, Copy, Debug)]
pub struct Stay<R> {
    /// When it was opened, hours.
    pub opened: R,
    /// When it was last read, hours.
    pub last: R,
}

/// The place of `node` in a ledger; its length where the node is not there.
pub open spec fn place<T>(ledger: Seq<(NodeId, T)>, node: NodeId) -> int
    decreases ledger.len(),
{
    if ledger.len() == 0 {
        0
    } else if ledger[0].0 == node {
        0
    } else {
        1 + place(ledger.drop_first(), node)
    }
}

/// Whether a ledger holds `node`.
pub open spec fn holds<T>(ledger: Seq<(NodeId, T)>, node: NodeId) -> bool {
    place(ledger, node) < ledger.len()
}

/// The ledger with the entry of `node` replaced, or added behind the others.
pub open spec fn entered<T>(ledger: Seq<(NodeId, T)>, node: NodeId, entry: T) -> Seq<(NodeId, T)> {
    if holds(ledger, node) {
        ledger.update(place(ledger, node), (node, entry))
    } else {
        ledger.push((node, entry))
    }
}

impl<R: Real> Report<R> {
    /// Nothing spent and nothing done.
    pub open spec fn blank() -> Self {
        let zero = R::int_of(0);
        Report {
            total_cost: zero,
            create_cost: zero,
            storage_cost: zero,
            request_cost: zero,
            cached_requests: 0,
            requests: 0,
            creates: 0,
            extends: 0,
            deletes: 0,
            token_hours: zero,
        }
    }

    /// With the storage of `tokens` from `opened` to `closed`.
    pub open spec fn stored(self, prices: Prices<R>, opened: R, tokens: u64, closed: R) -> Self {
        let held = closed.diff(opened).larger(R::int_of(0)).prod(mtok_of(tokens));
        Report {
            storage_cost: self.storage_cost.sum(held.prod(prices.storage())),
            token_hours: self.token_hours.sum(held),
            ..self
        }
    }

    /// With a cache of `tokens` written.
    pub open spec fn written(self, prices: Prices<R>, tokens: u64) -> Self {
        Report {
            create_cost: self.create_cost.sum(
                mtok_of::<R>(tokens).prod(prices.input_per_mtok),
            ),
            creates: bumped(self.creates),
            ..self
        }
    }

    /// With a request of `total` tokens, `cached` of them read from a cache.
    pub open spec fn served(self, prices: Prices<R>, total: u64, cached: u64) -> Self {
        Report {
            request_cost: self.request_cost.sum(
                mtok_of::<R>(cached).prod(prices.cached_read_per_mtok).sum(
                    mtok_of::<R>((total - cached) as u64).prod(prices.input_per_mtok),
                ),
            ),
            cached_requests: if cached > 0 {
                bumped(self.cached_requests)
            } else {
                self.cached_requests
            },
            requests: bumped(self.requests),
            ..self
        }
    }

    /// With the three kinds of spending added up.
    pub open spec fn summed(self) -> Self {
        Report {
            total_cost: self.create_cost.sum(self.storage_cost).sum(self.request_cost),
            ..self
        }
    }
}

/// What no caching at all spends on the first `upto` requests.
pub open spec fn uncached<R: Real>(
    trace: Seq<Arrival<R>>,
    prices: Prices<R>,
    upto: nat,
) -> Report<R>
    decreases upto,
{
    if upto == 0 {
        Report::blank()
    } else {
        let r = uncached(trace, prices, (upto - 1) as nat);
        Report {
            request_cost: r.request_cost.sum(
                mtok_of::<R>(trace[upto - 1].total_tokens).prod(prices.input_per_mtok),
            ),
            requests: bumped(r.requests),
            ..r
        }
    }
}

/// The trie of the first `upto` requests.
pub open spec fn trie_of<R: Real>(trace: Seq<Arrival<R>>, cfg: Config<R>, upto: nat) -> TrieModel<R>
    decreases upto,
{
    if upto == 0 {
        TrieModel::root_only(cfg.block_tokens, cfg.tau_decay_hours, cfg.max_nodes)
    } else {
        let e = trace[upto - 1];
        trie_of(trace, cfg, (upto - 1) as nat).observed_path(0, e.blocks, e.time_hours).0
    }
}

/// Whether a node is long enough to cache and was passed by more than one
/// request.
pub open spec fn worth_caching<R: Real>(t: TrieModel<R>, prices: Prices<R>, id: NodeId) -> bool {
    &&& t.tokens(id as int) >= prices.min_cacheable_tokens
    &&& t.nodes[id as int].stats.raw_count >= 2
}

/// The deepest node of a path that is worth caching.
pub open spec fn deepest_worth<R: Real>(
    t: TrieModel<R>,
    prices: Prices<R>,
    path: Seq<NodeId>,
) -> Option<NodeId>
    decreases path.len(),
{
    if path.len() == 0 {
        None
    } else if worth_caching(t, prices, path.last()) {
        Some(path.last())
    } else {
        deepest_worth(t, prices, path.drop_last())
    }
}

/// A whole trace at given prices, with the trie of all its requests.
pub struct Case<R> {
    pub trace: Seq<Arrival<R>>,
    pub prices: Prices<R>,
    pub cfg: Config<R>,
}

impl<R: Real> Case<R> {
    /// Whether every request has a length in tokens that fits.
    pub open spec fn fits(self) -> bool {
        forall|i: int|
            0 <= i < self.trace.len() ==> (#[trigger] self.trace[i]).blocks.len()
                * self.cfg.block_tokens <= u64::MAX
    }

    /// The trie of all requests.
    pub open spec fn trie(self) -> TrieModel<R> {
        trie_of(self.trace, self.cfg, self.trace.len())
    }

    /// The prefix that a request shares with others and that is worth caching.
    pub open spec fn family(self, e: Arrival<R>) -> Option<NodeId> {
        deepest_worth(self.trie(), self.prices, self.trie().peeked_path(0, e.blocks))
    }

    /// The length of a prefix in tokens.
    pub open spec fn tokens(self, id: NodeId) -> u64 {
        self.trie().tokens(id as int) as u64
    }

    /// The time of the last request.
    pub open spec fn end(self) -> R {
        if self.trace.len() == 0 {
            R::int_of(0)
        } else {
            self.trace.last().time_hours
        }
    }

    /// The time of the first request.
    pub open spec fn start(self) -> R {
        if self.trace.len() == 0 {
            R::int_of(0)
        } else {
            self.trace[0].time_hours
        }
    }

    // Caching by a fixed idle time.

    /// The first `n` stays, without those idle for longer than `ttl` at `now`,
    /// and the report with the storage of these until they lapsed.
    pub open spec fn expired(
        self,
        live: Seq<(NodeId, Stay<R>)>,
        n: nat,
        r: Report<R>,
        ttl: R,
        now: R,
    ) -> (Seq<(NodeId, Stay<R>)>, Report<R>)
        decreases n,
    {
        if n == 0 {
            (Seq::empty(), r)
        } else {
            let (kept, s) = self.expired(live, (n - 1) as nat, r, ttl, now);
            let (id, stay) = live[n - 1];
            if ttl.below(now.diff(stay.last)) {
                let t = s.stored(self.prices, stay.opened, self.tokens(id), stay.last.sum(ttl));
                (kept, Report { deletes: bumped(t.deletes), ..t })
            } else {
                (kept.push(live[n - 1]), s)
            }
        }
    }

    /// How much of a request the stays serve.
    pub open spec fn static_hit(self, live: Seq<(NodeId, Stay<R>)>, e: Arrival<R>) -> u64 {
        match self.family(e) {
            Some(id) => if holds(live, id) {
                self.tokens(id)
            } else {
                0
            },
            None => 0,
        }
    }

    /// The stays before a request is served: those not expired by then.
    pub open spec fn static_ready(self, ttl: Option<R>, upto: nat) -> (
        Seq<(NodeId, Stay<R>)>,
        Report<R>,
    )
        decreases upto, 1int,
    {
        let (live, r) = self.static_run(ttl, upto);
        match ttl {
            Some(h) => self.expired(live, live.len(), r, h, self.trace[upto as int].time_hours),
            None => (live, r),
        }
    }

    /// The stays and the report after the first `upto` requests.
    pub open spec fn static_run(self, ttl: Option<R>, upto: nat) -> (
        Seq<(NodeId, Stay<R>)>,
        Report<R>,
    )
        decreases upto, 0int,
    {
        if upto == 0 {
            (Seq::empty(), Report::blank())
        } else {
            let (live, r) = self.static_ready(ttl, (upto - 1) as nat);
            self.static_step(live, r, self.trace[upto - 1])
        }
    }

    /// The stays and the report once a request has been served: its prefix is
    /// read where it is live, and written for later requests where it is not.
    pub open spec fn static_step(
        self,
        live: Seq<(NodeId, Stay<R>)>,
        r: Report<R>,
        e: Arrival<R>,
    ) -> (Seq<(NodeId, Stay<R>)>, Report<R>) {
        let now = e.time_hours;
        let hit = self.static_hit(live, e);
        match self.family(e) {
            Some(id) => if holds(live, id) {
                let stay = Stay { last: now, ..live[place(live, id)].1 };
                (entered(live, id, stay), r.served(self.prices, e.total_tokens, hit))
            } else {
                (
                    entered(live, id, Stay { opened: now, last: now }),
                    r.written(self.prices, self.tokens(id)).served(
                        self.prices,
                        e.total_tokens,
                        hit,
                    ),
                )
            },
            None => (live, r.served(self.prices, e.total_tokens, hit)),
        }
    }

    /// When a stay still open at the end of the trace is closed.
    pub open spec fn static_close(self, ttl: Option<R>, stay: Stay<R>) -> R {
        match ttl {
            Some(h) => stay.last.sum(h).smaller(self.end()).larger(stay.opened),
            None => self.end(),
        }
    }

    /// The report with the first `n` stays closed.
    pub open spec fn static_closed(
        self,
        ttl: Option<R>,
        live: Seq<(NodeId, Stay<R>)>,
        n: nat,
        r: Report<R>,
    ) -> Report<R>
        decreases n,
    {
        if n == 0 {
            r
        } else {
            let s = self.static_closed(ttl, live, (n - 1) as nat, r);
            let (id, stay) = live[n - 1];
            s.stored(self.prices, stay.opened, self.tokens(id), self.static_close(ttl, stay))
        }
    }

    /// Whether no request among the first `upto` reads more from a cache than
    /// it holds.
    pub open spec fn static_covers(self, ttl: Option<R>, upto: nat) -> bool
        decreases upto,
    {
        upto == 0 || {
            let e = self.trace[upto - 1];
            &&& self.static_covers(ttl, (upto - 1) as nat)
            &&& self.static_hit(self.static_ready(ttl, (upto - 1) as nat).0, e) <= e.total_tokens
        }
    }

    /// What caching by a fixed idle time spends.
    pub open spec fn static_report(self, ttl: Option<R>) -> Report<R> {
        let (live, r) = self.static_run(ttl, self.trace.len());
        self.static_closed(ttl, live, live.len(), r).summed()
    }

    // Hindsight.

    /// The requests among the first `upto` that share the prefix `node`.
    pub open spec fn members(self, node: NodeId, upto: nat) -> Seq<usize>
        decreases upto,
    {
        if upto == 0 {
            Seq::empty()
        } else {
            let before = self.members(node, (upto - 1) as nat);
            if self.family(self.trace[upto - 1]) == Some(node) {
                before.push((upto - 1) as usize)
            } else {
                before
            }
        }
    }

    /// What the requests among the first `upto` cost that share no prefix worth
    /// caching.
    pub open spec fn loose_cost(self, upto: nat) -> R
        decreases upto,
    {
        if upto == 0 {
            R::int_of(0)
        } else {
            let before = self.loose_cost((upto - 1) as nat);
            let e = self.trace[upto - 1];
            if self.family(e) is None {
                before.sum(mtok_of::<R>(e.total_tokens).prod(self.prices.input_per_mtok))
            } else {
                before
            }
        }
    }

    /// The tokens of a request beyond its prefix.
    pub open spec fn suffix(self, e: Arrival<R>, node: NodeId) -> u64 {
        if e.total_tokens >= self.tokens(node) {
            (e.total_tokens - self.tokens(node)) as u64
        } else {
            0
        }
    }

    /// `acc` with the suffixes of the first `n` of the requests `idxs`.
    pub open spec fn suffix_costs(self, node: NodeId, idxs: Seq<usize>, n: nat, acc: R) -> R
        decreases n,
    {
        if n == 0 {
            acc
        } else {
            let e = self.trace[idxs[n - 1] as int];
            self.suffix_costs(node, idxs, (n - 1) as nat, acc).sum(
                mtok_of::<R>(self.suffix(e, node)).prod(self.prices.input_per_mtok),
            )
        }
    }

    /// The least that the prefix of the first `n` of the requests `idxs` costs
    /// with hindsight, and the least of `h(j) = dp[j-1] - read*j - store*t[j]`
    /// over them: each request either pays the input price, or ends a stay of
    /// the cache that began at some request `j`.
    pub open spec fn hindsight(self, node: NodeId, idxs: Seq<usize>, n: nat) -> (R, R)
        decreases n,
    {
        if n == 0 {
            (R::int_of(0), R::inf_of())
        } else {
            let (dp, run_min) = self.hindsight(node, idxs, (n - 1) as nat);
            let i = R::int_of((n - 1) as u64);
            let t = self.trace[idxs[n - 1] as int].time_hours;
            let m = mtok_of::<R>(self.tokens(node));
            let read = m.prod(self.prices.cached_read_per_mtok);
            let input = m.prod(self.prices.input_per_mtok);
            let store = m.prod(self.prices.storage()).prod(t);
            let low = run_min.smaller(dp.diff(read.prod(i)).diff(store));
            let cached = input.sum(read.prod(i.sum(R::int_of(1)))).sum(store).sum(low);
            (cached.smaller(dp.sum(input)), low)
        }
    }

    /// `acc` with the requests of the first `nodes` prefixes.
    pub open spec fn family_costs(self, nodes: nat, acc: R) -> R
        decreases nodes,
    {
        if nodes == 0 {
            acc
        } else {
            let before = self.family_costs((nodes - 1) as nat, acc);
            let node = (nodes - 1) as usize;
            let idxs = self.members(node, self.trace.len());
            if idxs.len() == 0 {
                before
            } else {
                self.suffix_costs(node, idxs, idxs.len(), before).sum(
                    self.hindsight(node, idxs, idxs.len()).0,
                )
            }
        }
    }

    /// What is spent with perfect hindsight, prefix by prefix.
    pub open spec fn oracle_report(self) -> Report<R> {
        let cost = self.family_costs(
            self.trie().nodes.len(),
            self.loose_cost(self.trace.len()),
        );
        Report {
            requests: self.trace.len() as u64,
            request_cost: cost,
            total_cost: cost,
            ..Report::blank()
        }
    }

    // The engine.

    /// The time between ticks.
    pub open spec fn tick_dt(self) -> R {
        self.cfg.extend_lead_hours.larger(frac(1, 60))
    }

    /// The lifetime of a new cache.
    pub open spec fn tau_hold(self) -> R {
        match self.prices.tau_hold() {
            Some(tau) => tau,
            None => R::int_of(0),
        }
    }

    /// The first `n` open intervals, without those that have lapsed by `clock`,
    /// and the report with these billed to their expiry.
    pub open spec fn lapsed(
        self,
        open: Seq<(NodeId, Interval<R>)>,
        n: nat,
        r: Report<R>,
        clock: R,
    ) -> (Seq<(NodeId, Interval<R>)>, Report<R>)
        decreases n,
    {
        if n == 0 {
            (Seq::empty(), r)
        } else {
            let (kept, s) = self.lapsed(open, (n - 1) as nat, r, clock);
            let (id, at) = open[n - 1];
            if at.expires.at_most(clock) {
                (kept, s.stored(self.prices, at.opened, at.tokens, at.expires))
            } else {
                (kept.push(open[n - 1]), s)
            }
        }
    }

    /// The play without the intervals that have lapsed by its clock.
    pub open spec fn sweep(self, p: Play<R>) -> Play<R> {
        let (open, r) = self.lapsed(p.open, p.open.len(), p.r, p.clock);
        Play { open, r, ..p }
    }

    /// The play with a new interval.
    pub open spec fn opened(self, p: Play<R>, node: NodeId, tokens: u64, now: R) -> Play<R> {
        Play {
            r: p.r.written(self.prices, tokens),
            open: entered(
                p.open,
                node,
                Interval { opened: now, tokens, expires: now.sum(self.tau_hold()) },
            ),
            ..p
        }
    }

    /// The play once the provider has executed an action.
    pub open spec fn applied(self, p: Play<R>, a: Action<R>, now: R) -> Play<R> {
        match a {
            Action::Create { node, tokens, ttl_hours } => self.opened(p, node, tokens, now),
            Action::PreCreate { node, tokens, ttl_hours } => self.opened(p, node, tokens, now),
            Action::Extend { node, expires_at_hours } => {
                let r = Report { extends: bumped(p.r.extends), ..p.r };
                if holds(p.open, node) {
                    let at = Interval {
                        expires: expires_at_hours,
                        ..p.open[place(p.open, node)].1
                    };
                    Play { r, open: entered(p.open, node, at), ..p }
                } else {
                    Play { r, ..p }
                }
            },
            Action::Delete { node } => {
                let r = Report { deletes: bumped(p.r.deletes), ..p.r };
                if holds(p.open, node) {
                    let at = p.open[place(p.open, node)].1;
                    Play {
                        r: r.stored(self.prices, at.opened, at.tokens, now),
                        open: p.open.remove(place(p.open, node)),
                        ..p
                    }
                } else {
                    Play { r, ..p }
                }
            },
        }
    }

    /// The play once an adapter that always succeeds at once has executed
    /// actions, in order, and confirmed the creations among them.
    pub open spec fn settled(self, p: Play<R>, actions: Seq<Action<R>>, now: R) -> Play<R>
        decreases actions.len(),
    {
        if actions.len() == 0 {
            p
        } else {
            let q = self.settled(p, actions.drop_last(), now);
            let eng = match actions.last() {
                Action::Create { node, tokens, ttl_hours } => q.eng.confirmed(node as int, now),
                Action::PreCreate { node, tokens, ttl_hours } => q.eng.confirmed(node as int, now),
                _ => q.eng,
            };
            self.applied(Play { eng, ..q }, actions.last(), now)
        }
    }

    /// Actions leave the clock alone.
    pub proof fn settled_keeps_clock(self, p: Play<R>, actions: Seq<Action<R>>, now: R)
        ensures
            self.settled(p, actions, now).clock == p.clock,
        decreases actions.len(),
    {
        if actions.len() > 0 {
            self.settled_keeps_clock(p, actions.drop_last(), now);
        }
    }

    /// Actions leave the clock alone while the play is wound down.
    pub proof fn wound_down_keeps_clock(self, p: Play<R>, actions: Seq<Action<R>>, now: R)
        ensures
            self.wound_down(p, actions, now).clock == p.clock,
        decreases actions.len(),
    {
        if actions.len() > 0 {
            self.wound_down_keeps_clock(p, actions.drop_last(), now);
        }
    }

    /// The play after a tick at its clock.
    pub open spec fn ticked(self, p: Play<R>) -> Play<R> {
        let (eng, actions) = p.eng.ticked(p.clock);
        self.sweep(self.settled(Play { eng, ..p }, actions, p.clock))
    }

    /// The play once ticks have brought its clock to `now`. A clock too coarse
    /// to take a step stops.
    pub open spec fn driven(self, p: Play<R>, now: R) -> Play<R>
        decreases time_left(p.clock, now),
    {
        if p.clock.below(now) && p.clock.rank() < now.rank() {
            let next = p.clock.sum(self.tick_dt());
            if p.clock.rank() < next.rank() {
                self.driven(Play { clock: next, ..self.ticked(p) }, now)
            } else {
                self.ticked(p)
            }
        } else {
            p
        }
    }

    /// The play after a request.
    pub open spec fn requested(self, p: Play<R>, e: Arrival<R>) -> Play<R> {
        let (eng, seen) = p.eng.observed(e.blocks, e.time_hours);
        let q = self.settled(Play { eng, ..p }, seen.actions, e.time_hours);
        let cached = min_u64(seen.cached_tokens, e.total_tokens);
        Play { r: q.r.served(self.prices, e.total_tokens, cached), ..q }
    }

    /// The play before the first request.
    pub open spec fn opening(self) -> Play<R> {
        Play {
            eng: EngineModel {
                trie: TrieModel::root_only(
                    self.cfg.block_tokens,
                    self.cfg.tau_decay_hours,
                    self.cfg.max_nodes,
                ),
                prices: self.prices,
                cfg: self.cfg,
            },
            r: Report::blank(),
            open: Seq::empty(),
            clock: self.start(),
        }
    }

    /// The play after the first `upto` requests.
    pub open spec fn played(self, upto: nat) -> Play<R>
        decreases upto,
    {
        if upto == 0 {
            self.opening()
        } else {
            let e = self.trace[upto - 1];
            self.requested(self.driven(self.played((upto - 1) as nat), e.time_hours), e)
        }
    }

    /// The play once the extensions and deletions among actions have been
    /// executed; no cache is opened any more.
    pub open spec fn wound_down(self, p: Play<R>, actions: Seq<Action<R>>, now: R) -> Play<R>
        decreases actions.len(),
    {
        if actions.len() == 0 {
            p
        } else {
            let q = self.wound_down(p, actions.drop_last(), now);
            match actions.last() {
                Action::Create { node, tokens, ttl_hours } => q,
                Action::PreCreate { node, tokens, ttl_hours } => q,
                _ => self.applied(q, actions.last(), now),
            }
        }
    }

    /// The play once every cache is closed, or `ticks` more ticks have passed.
    pub open spec fn drained(self, p: Play<R>, ticks: nat) -> Play<R>
        decreases ticks,
    {
        if p.open.len() == 0 || ticks == 0 {
            p
        } else {
            let (eng, actions) = p.eng.ticked(p.clock);
            let q = self.sweep(self.wound_down(Play { eng, ..p }, actions, p.clock));
            self.drained(
                Play { clock: p.clock.sum(self.tick_dt()), ..q },
                (ticks - 1) as nat,
            )
        }
    }

    /// The report with the first `n` open intervals closed at `clock`.
    pub open spec fn closed(
        self,
        open: Seq<(NodeId, Interval<R>)>,
        n: nat,
        r: Report<R>,
        clock: R,
    ) -> Report<R>
        decreases n,
    {
        if n == 0 {
            r
        } else {
            let (id, at) = open[n - 1];
            self.closed(open, (n - 1) as nat, r, clock).stored(
                self.prices,
                at.opened,
                at.tokens,
                clock,
            )
        }
    }

    /// What the engine spends.
    pub open spec fn engine_report(self) -> Report<R> {
        let p = self.drained(self.played(self.trace.len()), 100_000);
        self.closed(p.open, p.open.len(), p.r, p.clock).summed()
    }

    /// What no caching spends.
    pub open spec fn uncached_report(self) -> Report<R> {
        let r = uncached(self.trace, self.prices, self.trace.len());
        Report { total_cost: r.request_cost, ..r }
    }

    /// What a policy spends.
    pub open spec fn report(self, policy: Policy<R>) -> Report<R> {
        match policy {
            Policy::NoCache => self.uncached_report(),
            Policy::CacheEverything => self.static_report(None),
            Policy::StaticTtl(ttl) => self.static_report(Some(ttl)),
            Policy::Pcoe => self.engine_report(),
            Policy::ReferenceOracle => self.oracle_report(),
        }
    }

    /// Whether a policy can be replayed: prefix lengths fit, and no request
    /// reads more from a static cache than it holds.
    pub open spec fn replayable(self, policy: Policy<R>) -> bool {
        match policy {
            Policy::NoCache => true,
            Policy::CacheEverything => self.fits() && self.static_covers(None, self.trace.len()),
            Policy::StaticTtl(ttl) => self.fits() && self.static_covers(
                Some(ttl),
                self.trace.len(),
            ),
            Policy::Pcoe => self.fits(),
            Policy::ReferenceOracle => self.fits(),
        }
    }
}

/// How far a clock is behind `now` in the total order.
pub open spec fn time_left<R: Real>(clock: R, now: R) -> nat {
    if clock.rank() < now.rank() {
        (now.rank() - clock.rank()) as nat
    } else {
        0
    }
}

/// A replay of the engine: what it knows, what was spent, which caches the
/// provider holds, and when the next tick is due.
#[verifier::ext_equal]
pub struct Play<R> {
    pub eng: EngineModel<R>,
    pub r: Report<R>,
    pub open: Seq<(NodeId, Interval<R>)>,
    pub clock: R,
}

} // verus!
