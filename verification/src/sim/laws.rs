//! What holds of every replay.
use vstd::prelude::*;

use crate::engine::{Action, Config};
use crate::fixed::{Fixed, ONE};
use crate::number::Real;
use crate::price::Prices;
use crate::sim::model::{
    deepest_worth, trie_of, uncached, worth_caching, Case, Interval, Play, Stay,
};
use crate::sim::{Policy, Report};
use crate::trace::Arrival;
use crate::trie::rates::{first_rate_is_positive, step_slack};
use crate::trie::shares::sum_slack;
use crate::trie::{NodeId, TrieModel};

verus! {

/// The trie of a trace never shrinks, and its links stay in the arena.
proof fn trie_grows<R: Real>(trace: Seq<Arrival<R>>, cfg: Config<R>, few: nat, all: nat)
    requires
        few <= all,
    ensures
        trie_of(trace, cfg, few).nodes.len() <= trie_of(trace, cfg, all).nodes.len(),
        trie_of(trace, cfg, all).in_range(),
        trie_of(trace, cfg, all).nodes.len() >= 1,
    decreases all,
{
    if all > 0 {
        trie_grows(trace, cfg, if few < all { few } else { (all - 1) as nat }, (all - 1) as nat);
        let e = trace[all - 1];
        trie_of(trace, cfg, (all - 1) as nat).walk_never_shrinks(0, e.blocks, e.time_hours);
    }
}

/// The trie of a trace is a tree, made with the parameters of the engine, whose
/// prefix lengths fit.
pub proof fn trie_of_trace_is_wf<R: Real>(c: Case<R>, upto: nat)
    requires
        c.fits(),
        upto <= c.trace.len(),
        forall|i: int| 0 <= i < c.trace.len() ==> (#[trigger] c.trace[i]).blocks.len() <= u64::MAX,
    ensures
        trie_of(c.trace, c.cfg, upto).wf(),
        trie_of(c.trace, c.cfg, upto).sized(),
        trie_of(c.trace, c.cfg, upto).block_tokens == c.cfg.block_tokens,
    decreases upto,
{
    if upto == 0 {
        let t = trie_of(c.trace, c.cfg, 0);
        assert forall|id: int| #[trigger] t.live(id) implies t.tokens(id) <= u64::MAX by {
            assert(0 * c.cfg.block_tokens == 0) by (nonlinear_arith);
        }
    } else {
        trie_of_trace_is_wf(c, (upto - 1) as nat);
        let t = trie_of(c.trace, c.cfg, (upto - 1) as nat);
        let e = c.trace[upto - 1];
        t.walk_is_kept(0, e.blocks, e.time_hours);
        t.walk_is_sized(e.blocks, e.time_hours);
    }
}

/// Whether every request holds at least the tokens of its blocks.
pub open spec fn whole<R: Real>(trace: Seq<Arrival<R>>, block_tokens: u64) -> bool {
    forall|i: int|
        0 <= i < trace.len() ==> (#[trigger] trace[i]).blocks.len() * block_tokens
            <= trace[i].total_tokens
}

/// A look-up leads no deeper than there are blocks.
pub(crate) proof fn peeked_is_shallow<R: Real>(
    t: TrieModel<R>,
    cur: NodeId,
    blocks: Seq<u64>,
    x: NodeId,
)
    requires
        t.wf(),
        t.live(cur as int),
        t.peeked_path(cur, blocks).contains(x),
    ensures
        t.live(x as int),
        t.nodes[x as int].depth_blocks <= t.nodes[cur as int].depth_blocks + blocks.len(),
    decreases blocks.len(),
{
    let path = t.peeked_path(cur, blocks);
    let k = choose|k: int| 0 <= k < path.len() && path[k] == x;
    let next = t.nodes[cur as int].children[blocks[0]];
    let rest = t.peeked_path(next, blocks.drop_first());
    assert(t.leads(cur as int, blocks[0]));
    assert(t.hangs(next as int));
    if k > 0 {
        assert(rest[k - 1] == x);
        assert(rest.contains(x));
        peeked_is_shallow(t, next, blocks.drop_first(), x);
    }
}

/// The deepest node worth caching is on the path, and worth caching.
pub proof fn deepest_worth_on_path<R: Real>(t: TrieModel<R>, prices: Prices<R>, path: Seq<NodeId>)
    ensures
        match deepest_worth(t, prices, path) {
            Some(id) => path.contains(id) && worth_caching(t, prices, id),
            None => true,
        },
    decreases path.len(),
{
    if path.len() > 0 {
        if worth_caching(t, prices, path.last()) {
            assert(path[path.len() - 1] == path.last());
        } else {
            let rest = path.drop_last();
            deepest_worth_on_path(t, prices, rest);
            if let Some(id) = deepest_worth(t, prices, rest) {
                let k = choose|k: int| 0 <= k < rest.len() && rest[k] == id;
                assert(path[k] == id);
            }
        }
    }
}

/// A trace whose requests hold the tokens of their blocks can be replayed by
/// every policy.
pub proof fn whole_traces_can_be_replayed<R: Real>(c: Case<R>, policy: Policy<R>)
    requires
        whole(c.trace, c.cfg.block_tokens),
        forall|i: int| 0 <= i < c.trace.len() ==> (#[trigger] c.trace[i]).blocks.len() <= u64::MAX,
    ensures
        c.replayable(policy),
{
    assert forall|i: int| 0 <= i < c.trace.len() implies (#[trigger] c.trace[i]).blocks.len()
        * c.cfg.block_tokens <= u64::MAX by {}
    trie_of_trace_is_wf(c, c.trace.len());
    match policy {
        Policy::CacheEverything => whole_is_covered(c, None, c.trace.len()),
        Policy::StaticTtl(ttl) => whole_is_covered(c, Some(ttl), c.trace.len()),
        _ => {},
    }
}

proof fn whole_is_covered<R: Real>(c: Case<R>, ttl: Option<R>, upto: nat)
    requires
        whole(c.trace, c.cfg.block_tokens),
        c.trie().wf(),
        c.trie().sized(),
        c.trie().block_tokens == c.cfg.block_tokens,
        upto <= c.trace.len(),
    ensures
        c.static_covers(ttl, upto),
    decreases upto,
{
    if upto > 0 {
        whole_is_covered(c, ttl, (upto - 1) as nat);
        let e = c.trace[upto - 1];
        let t = c.trie();
        let path = t.peeked_path(0, e.blocks);
        deepest_worth_on_path(t, c.prices, path);
        if let Some(id) = c.family(e) {
            peeked_is_shallow(t, 0, e.blocks, id);
            let d = t.nodes[id as int].depth_blocks;
            let n = e.blocks.len();
            let bt = c.cfg.block_tokens;
            assert(d * bt <= n * bt) by (nonlinear_arith)
                requires
                    d <= n,
            ;
        }
    }
}

// Counts and totals.

impl<R: Real> Report<R> {
    /// The same requests, as many of them served from a cache.
    spec fn same_requests(self, o: Self) -> bool {
        self.requests == o.requests && self.cached_requests == o.cached_requests
    }
}

impl<R: Real> Case<R> {
    proof fn expired_keeps_requests(
        self,
        live: Seq<(NodeId, Stay<R>)>,
        n: nat,
        r: Report<R>,
        ttl: R,
        now: R,
    )
        ensures
            self.expired(live, n, r, ttl, now).1.same_requests(r),
        decreases n,
    {
        if n > 0 {
            self.expired_keeps_requests(live, (n - 1) as nat, r, ttl, now);
        }
    }

    proof fn static_counts(self, ttl: Option<R>, upto: nat)
        requires
            upto <= self.trace.len() <= u64::MAX,
        ensures
            self.static_run(ttl, upto).1.requests == upto,
            self.static_run(ttl, upto).1.cached_requests <= upto,
        decreases upto,
    {
        if upto > 0 {
            self.static_counts(ttl, (upto - 1) as nat);
            let (live, r) = self.static_run(ttl, (upto - 1) as nat);
            if let Some(h) = ttl {
                self.expired_keeps_requests(
                    live,
                    live.len(),
                    r,
                    h,
                    self.trace[upto - 1].time_hours,
                );
            }
        }
    }

    proof fn static_closed_keeps_requests(
        self,
        ttl: Option<R>,
        live: Seq<(NodeId, Stay<R>)>,
        n: nat,
        r: Report<R>,
    )
        ensures
            self.static_closed(ttl, live, n, r).same_requests(r),
        decreases n,
    {
        if n > 0 {
            self.static_closed_keeps_requests(ttl, live, (n - 1) as nat, r);
        }
    }

    proof fn lapsed_keeps_requests(
        self,
        open: Seq<(NodeId, Interval<R>)>,
        n: nat,
        r: Report<R>,
        clock: R,
    )
        ensures
            self.lapsed(open, n, r, clock).1.same_requests(r),
        decreases n,
    {
        if n > 0 {
            self.lapsed_keeps_requests(open, (n - 1) as nat, r, clock);
        }
    }

    proof fn settled_keeps_requests(self, p: Play<R>, actions: Seq<Action<R>>, now: R)
        ensures
            self.settled(p, actions, now).r.same_requests(p.r),
        decreases actions.len(),
    {
        if actions.len() > 0 {
            self.settled_keeps_requests(p, actions.drop_last(), now);
        }
    }

    proof fn wound_down_keeps_requests(self, p: Play<R>, actions: Seq<Action<R>>, now: R)
        ensures
            self.wound_down(p, actions, now).r.same_requests(p.r),
        decreases actions.len(),
    {
        if actions.len() > 0 {
            self.wound_down_keeps_requests(p, actions.drop_last(), now);
        }
    }

    proof fn ticked_keeps_requests(self, p: Play<R>)
        ensures
            self.ticked(p).r.same_requests(p.r),
    {
        let (eng, actions) = p.eng.ticked(p.clock);
        let q = self.settled(Play { eng, ..p }, actions, p.clock);
        self.settled_keeps_requests(Play { eng, ..p }, actions, p.clock);
        self.lapsed_keeps_requests(q.open, q.open.len(), q.r, q.clock);
    }

    proof fn driven_keeps_requests(self, p: Play<R>, now: R)
        ensures
            self.driven(p, now).r.same_requests(p.r),
        decreases crate::sim::model::time_left(p.clock, now),
    {
        if p.clock.below(now) && p.clock.rank() < now.rank() {
            self.ticked_keeps_requests(p);
            let next = p.clock.sum(self.tick_dt());
            if p.clock.rank() < next.rank() {
                self.driven_keeps_requests(Play { clock: next, ..self.ticked(p) }, now);
            }
        }
    }

    proof fn drained_keeps_requests(self, p: Play<R>, ticks: nat)
        ensures
            self.drained(p, ticks).r.same_requests(p.r),
        decreases ticks,
    {
        if p.open.len() != 0 && ticks != 0 {
            let (eng, actions) = p.eng.ticked(p.clock);
            let q = self.wound_down(Play { eng, ..p }, actions, p.clock);
            self.wound_down_keeps_requests(Play { eng, ..p }, actions, p.clock);
            self.lapsed_keeps_requests(q.open, q.open.len(), q.r, q.clock);
            let s = self.sweep(q);
            self.drained_keeps_requests(
                Play { clock: p.clock.sum(self.tick_dt()), ..s },
                (ticks - 1) as nat,
            );
        }
    }

    proof fn closed_keeps_requests(
        self,
        open: Seq<(NodeId, Interval<R>)>,
        n: nat,
        r: Report<R>,
        clock: R,
    )
        ensures
            self.closed(open, n, r, clock).same_requests(r),
        decreases n,
    {
        if n > 0 {
            self.closed_keeps_requests(open, (n - 1) as nat, r, clock);
        }
    }

    proof fn played_counts(self, upto: nat)
        requires
            upto <= self.trace.len() <= u64::MAX,
        ensures
            self.played(upto).r.requests == upto,
            self.played(upto).r.cached_requests <= upto,
        decreases upto,
    {
        if upto > 0 {
            self.played_counts((upto - 1) as nat);
            let e = self.trace[upto - 1];
            let p = self.played((upto - 1) as nat);
            self.driven_keeps_requests(p, e.time_hours);
            let q = self.driven(p, e.time_hours);
            let (eng, seen) = q.eng.observed(e.blocks, e.time_hours);
            self.settled_keeps_requests(Play { eng, ..q }, seen.actions, e.time_hours);
        }
    }
}

proof fn uncached_counts<R: Real>(trace: Seq<Arrival<R>>, prices: Prices<R>, upto: nat)
    requires
        upto <= trace.len() <= u64::MAX,
    ensures
        ({
            let r = uncached(trace, prices, upto);
            &&& r.requests == upto
            &&& r == Report {
                request_cost: r.request_cost,
                requests: r.requests,
                ..Report::<R>::blank()
            }
        }),
    decreases upto,
{
    if upto > 0 {
        uncached_counts(trace, prices, (upto - 1) as nat);
    }
}

/// Every policy accounts for every request, and no more of them are served from
/// a cache than there are.
pub proof fn every_request_is_counted<R: Real>(c: Case<R>, policy: Policy<R>)
    requires
        c.trace.len() <= u64::MAX,
    ensures
        c.report(policy).requests == c.trace.len(),
        c.report(policy).cached_requests <= c.trace.len(),
{
    let n = c.trace.len();
    match policy {
        Policy::NoCache => uncached_counts(c.trace, c.prices, n),
        Policy::CacheEverything => {
            let (live, r) = c.static_run(None, n);
            c.static_counts(None, n);
            c.static_closed_keeps_requests(None, live, live.len(), r);
        },
        Policy::StaticTtl(ttl) => {
            let (live, r) = c.static_run(Some(ttl), n);
            c.static_counts(Some(ttl), n);
            c.static_closed_keeps_requests(Some(ttl), live, live.len(), r);
        },
        Policy::Pcoe => {
            c.played_counts(n);
            let p = c.played(n);
            c.drained_keeps_requests(p, 100_000);
            let q = c.drained(p, 100_000);
            c.closed_keeps_requests(q.open, q.open.len(), q.r, q.clock);
        },
        Policy::ReferenceOracle => {},
    }
}

/// What a policy spends is what it spends on creations, on storage and on
/// requests; without caching, and with hindsight, all of it is on requests.
pub proof fn totals_add_up<R: Real>(c: Case<R>, policy: Policy<R>)
    requires
        c.trace.len() <= u64::MAX,
    ensures
        ({
            let r = c.report(policy);
            match policy {
                Policy::NoCache | Policy::ReferenceOracle => {
                    &&& r.total_cost == r.request_cost
                    &&& r.create_cost == R::int_of(0)
                    &&& r.storage_cost == R::int_of(0)
                    &&& r.creates == 0 && r.extends == 0 && r.deletes == 0
                },
                _ => r.total_cost == r.create_cost.sum(r.storage_cost).sum(r.request_cost),
            }
        }),
{
    uncached_counts(c.trace, c.prices, c.trace.len());
}

/// The time up to which the first `upto` requests of a trace go; zero where there
/// are none.
pub open spec fn time_of(trace: Seq<Arrival<Fixed>>, upto: nat) -> Fixed {
    if upto == 0 {
        Fixed { units: 0 }
    } else {
        trace[upto - 1].time_hours
    }
}

/// From the first request of a trace on, no prefix is busier than a shorter one:
/// times nest, and rates do but for a few billionths for each request.
pub proof fn traffic_nests_over_a_trace(c: Case<Fixed>, upto: nat)
    requires
        c.fits(),
        upto <= c.trace.len(),
        c.cfg.tau_decay_hours.units > 0,
        forall|i: int|
            0 <= i < c.trace.len() ==> {
                &&& (#[trigger] c.trace[i]).blocks.len() <= u64::MAX
                &&& 0 <= c.trace[i].time_hours.units
            },
        forall|i: int, j: int|
            0 <= i <= j < c.trace.len() ==> (#[trigger] c.trace[i]).time_hours.units <= (
            #[trigger] c.trace[j]).time_hours.units,
    ensures
        ({
            let t = trie_of(c.trace, c.cfg, upto);
            let now = time_of(c.trace, upto);
            let cap = upto * Fixed::int_of(1).quot(c.cfg.tau_decay_hours).units;
            &&& t.tau_decay == c.cfg.tau_decay_hours
            &&& t.times_nest(now)
            &&& t.rates_nest(now, upto * step_slack(cap), cap)
        }),
    decreases upto,
{
    let one = Fixed::int_of(1).quot(c.cfg.tau_decay_hours).units as int;
    first_rate_is_positive(c.cfg.tau_decay_hours);
    let cap = upto * one;
    if upto == 0 {
        assert(0 * step_slack(cap) == 0 && 0 * one == 0) by (nonlinear_arith);
    } else {
        let k = (upto - 1) as nat;
        traffic_nests_over_a_trace(c, k);
        trie_of_trace_is_wf(c, k);
        let t = trie_of(c.trace, c.cfg, k);
        let e = c.trace[k as int];
        let low = k * one;
        assert(0 <= low && low + one == cap) by (nonlinear_arith)
            requires
                low == k * one,
                cap == (k + 1) * one,
                one >= 0,
                k >= 0,
        ;
        assert(0 <= k * step_slack(low) && k * step_slack(low) + step_slack(low) <= upto
            * step_slack(cap)) by (nonlinear_arith)
            requires
                0 <= step_slack(low) <= step_slack(cap),
                upto == k + 1,
        ;
        if k > 0 {
            assert(c.trace[k - 1].time_hours.units <= e.time_hours.units);
        }
        t.times_stay_nested(e.blocks, time_of(c.trace, k), e.time_hours);
        t.rates_stay_nested(
            e.blocks,
            time_of(c.trace, k),
            e.time_hours,
            k * step_slack(low),
            low,
        );
        t.walk_is_kept(0, e.blocks, e.time_hours);
        trie_of(c.trace, c.cfg, upto).more_slack(
            e.time_hours,
            k * step_slack(low) + step_slack(low),
            cap,
            upto * step_slack(cap),
            cap,
        );
    }
}

/// From the first request of a trace on, the children of a prefix are together no
/// busier than the prefix, but for a few billionths for each request and slot.
pub proof fn children_share_traffic_over_a_trace(c: Case<Fixed>, upto: nat)
    requires
        c.fits(),
        upto <= c.trace.len(),
        c.cfg.tau_decay_hours.units > 0,
        c.trace.len() * Fixed::int_of(1).quot(c.cfg.tau_decay_hours).units <= i64::MAX,
        forall|i: int|
            0 <= i < c.trace.len() ==> {
                &&& (#[trigger] c.trace[i]).blocks.len() <= u64::MAX
                &&& 0 <= c.trace[i].time_hours.units
            },
        forall|i: int, j: int|
            0 <= i <= j < c.trace.len() ==> (#[trigger] c.trace[i]).time_hours.units <= (
            #[trigger] c.trace[j]).time_hours.units,
    ensures
        ({
            let cap = upto * Fixed::int_of(1).quot(c.cfg.tau_decay_hours).units;
            let width = c.trie().nodes.len();
            trie_of(c.trace, c.cfg, upto).sums_nest(upto * sum_slack(cap, width), width)
        }),
    decreases upto,
{
    let one = Fixed::int_of(1).quot(c.cfg.tau_decay_hours).units as int;
    first_rate_is_positive(c.cfg.tau_decay_hours);
    let width = c.trie().nodes.len();
    let cap = upto * one;
    if upto > 0 {
        let k = (upto - 1) as nat;
        children_share_traffic_over_a_trace(c, k);
        traffic_nests_over_a_trace(c, k);
        trie_of_trace_is_wf(c, k);
        trie_grows(c.trace, c.cfg, upto, c.trace.len());
        let t = trie_of(c.trace, c.cfg, k);
        let e = c.trace[k as int];
        let low = k * one;
        assert(0 <= low && low + one == cap && cap <= c.trace.len() * one) by (nonlinear_arith)
            requires
                low == k * one,
                cap == (k + 1) * one,
                k + 1 <= c.trace.len(),
                one >= 0,
                k >= 0,
        ;
        let (a, b) = (sum_slack(low, width), sum_slack(cap, width));
        assert(0 <= a <= b) by {
            let (x, y) = (width * (ONE + 11 * low), width * (ONE + 11 * cap));
            assert(0 <= x <= y) by (nonlinear_arith)
                requires
                    x == width * (ONE + 11 * low),
                    y == width * (ONE + 11 * cap),
                    0 <= low <= cap,
                    ONE == 1_000_000_000,
            ;
        }
        assert(0 <= k * a && k * a + a <= upto * b) by (nonlinear_arith)
            requires
                0 <= a <= b,
                upto == k + 1,
        ;
        if k > 0 {
            assert(c.trace[k - 1].time_hours.units <= e.time_hours.units);
        }
        t.sums_stay_nested(
            e.blocks,
            time_of(c.trace, k),
            e.time_hours,
            k * a,
            k * step_slack(low),
            low,
            width,
        );
        let after = trie_of(c.trace, c.cfg, upto);
        assert forall|p: int| #[trigger] after.live(p) && p != 0 implies after.sum_nests(
            p,
            upto * b,
            width,
        ) by {
            assert(after.sum_nests(p, k * a + a, width));
        }
    }
}

} // verus!
