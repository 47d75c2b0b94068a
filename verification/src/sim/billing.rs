//! What a replay of the engine is billed for, in billionths of a dollar.
use vstd::prelude::*;

use crate::engine::Action;
use crate::fixed::Fixed;
use crate::number::{frac, min_u64, Real};
use crate::price::Prices;
use crate::sim::model::{entered, holds, place, time_left, Case, Interval, Play};
use crate::sim::spending::{charge, tokens_are_charged};
use crate::sim::{ratio_of, report_of, same_policy, Policy, Report};
use crate::total::{total_grows, total_is_ordered, total_of};
use crate::trie::NodeId;

verus! {

/// A request pays the read price for what it reads from a cache and the input
/// price for the rest, and counts as served from a cache where it reads any.
pub proof fn request_is_billed(r: Report<Fixed>, p: Prices<Fixed>, total: u64, cached: u64)
    requires
        cached <= total <= 9_000_000_000,
        0 <= p.cached_read_per_mtok.units <= 1_000_000_000_000_000,
        0 <= p.input_per_mtok.units <= 1_000_000_000_000_000,
        0 <= r.request_cost.units,
        r.request_cost.units + charge(cached as int, p.cached_read_per_mtok) + charge(
            total - cached,
            p.input_per_mtok,
        ) <= i64::MAX,
        r.requests < u64::MAX,
        r.cached_requests < u64::MAX,
    ensures
        ({
            let s = r.served(p, total, cached);
            &&& s.request_cost.units == r.request_cost.units + charge(
                cached as int,
                p.cached_read_per_mtok,
            ) + charge(total - cached, p.input_per_mtok)
            &&& s.requests == r.requests + 1
            &&& s.cached_requests == r.cached_requests + if cached > 0 {
                1int
            } else {
                0
            }
            &&& s == Report {
                request_cost: s.request_cost,
                requests: s.requests,
                cached_requests: s.cached_requests,
                ..r
            }
        }),
{
    tokens_are_charged(cached, p.cached_read_per_mtok);
    tokens_are_charged((total - cached) as u64, p.input_per_mtok);
}

/// A write pays the input price for all it writes, and is counted.
pub proof fn write_is_billed(r: Report<Fixed>, p: Prices<Fixed>, tokens: u64)
    requires
        tokens <= 9_000_000_000,
        0 <= p.input_per_mtok.units <= 1_000_000_000_000_000,
        0 <= r.create_cost.units,
        r.create_cost.units + charge(tokens as int, p.input_per_mtok) <= i64::MAX,
        r.creates < u64::MAX,
    ensures
        ({
            let s = r.written(p, tokens);
            &&& s.create_cost.units == r.create_cost.units + charge(
                tokens as int,
                p.input_per_mtok,
            )
            &&& s.creates == r.creates + 1
            &&& s == Report { create_cost: s.create_cost, creates: s.creates, ..r }
        }),
{
    tokens_are_charged(tokens, p.input_per_mtok);
}

/// How many millions of tokens were held for an hour, in billionths.
pub open spec fn held_hours(tokens: int, time: int) -> int {
    (time * (1000 * tokens)) / 1_000_000_000
}

/// Storage pays for the tokens in millions over the time they were held, nothing
/// where that is not positive, at the storage price.
pub proof fn storage_is_billed(
    r: Report<Fixed>,
    p: Prices<Fixed>,
    opened: Fixed,
    tokens: u64,
    closed: Fixed,
)
    requires
        tokens <= 9_000_000_000,
        0 <= p.storage().units <= 1_000_000_000_000_000,
        closed.units - opened.units <= 1_000_000_000_000_000,
        0 <= r.storage_cost.units,
        0 <= r.token_hours.units,
        ({
            let time = if closed.units > opened.units {
                closed.units - opened.units
            } else {
                0
            };
            let held = held_hours(tokens as int, time);
            &&& r.storage_cost.units + (held * p.storage().units) / 1_000_000_000 <= i64::MAX
            &&& r.token_hours.units + held <= i64::MAX
        }),
    ensures
        ({
            let s = r.stored(p, opened, tokens, closed);
            let time = if closed.units > opened.units {
                closed.units - opened.units
            } else {
                0
            };
            let held = held_hours(tokens as int, time);
            &&& s.token_hours.units == r.token_hours.units + held
            &&& s.storage_cost.units == r.storage_cost.units + (held * p.storage().units)
                / 1_000_000_000
            &&& s == Report { storage_cost: s.storage_cost, token_hours: s.token_hours, ..r }
        }),
{
    crate::sim::benchmark::priced(tokens, p.storage());
    let time = if closed.units > opened.units {
        closed.units - opened.units
    } else {
        0
    };
    let m = 1000 * tokens;
    assert(0 <= time * m <= 1_000_000_000_000_000 * 9_000_000_000_000) by (nonlinear_arith)
        requires
            0 <= time <= 1_000_000_000_000_000,
            0 <= m <= 9_000_000_000_000,
    ;
    let h = (time * m) / 1_000_000_000;
    assert(0 <= h * p.storage().units) by (nonlinear_arith)
        requires
            0 <= h,
            0 <= p.storage().units,
    ;
}

impl<R: Real> Report<R> {
    /// Whether two reports say the same of requests.
    pub open spec fn serves_as(self, o: Self) -> bool {
        &&& self.request_cost == o.request_cost
        &&& self.cached_requests == o.cached_requests
        &&& self.requests == o.requests
    }

    /// Whether two reports say the same of requests and of writes.
    pub open spec fn writes_as(self, o: Self) -> bool {
        &&& self.serves_as(o)
        &&& self.create_cost == o.create_cost
        &&& self.creates == o.creates
    }
}

impl<R: Real> Case<R> {
    proof fn lapsing_serves(
        self,
        open: Seq<(NodeId, Interval<R>)>,
        n: nat,
        r: Report<R>,
        clock: R,
    )
        ensures
            self.lapsed(open, n, r, clock).1.writes_as(r),
        decreases n,
    {
        if n > 0 {
            self.lapsing_serves(open, (n - 1) as nat, r, clock);
        }
    }

    proof fn settling_serves(self, p: Play<R>, actions: Seq<Action<R>>, now: R)
        ensures
            self.settled(p, actions, now).r.serves_as(p.r),
        decreases actions.len(),
    {
        if actions.len() > 0 {
            self.settling_serves(p, actions.drop_last(), now);
        }
    }

    proof fn winding_down_writes(self, p: Play<R>, actions: Seq<Action<R>>, now: R)
        ensures
            self.wound_down(p, actions, now).r.writes_as(p.r),
        decreases actions.len(),
    {
        if actions.len() > 0 {
            self.winding_down_writes(p, actions.drop_last(), now);
        }
    }

    proof fn ticking_serves(self, p: Play<R>)
        ensures
            self.ticked(p).r.serves_as(p.r),
    {
        let (eng, actions) = p.eng.ticked(p.clock);
        let q = self.settled(Play { eng, ..p }, actions, p.clock);
        self.settling_serves(Play { eng, ..p }, actions, p.clock);
        self.lapsing_serves(q.open, q.open.len(), q.r, q.clock);
    }

    proof fn driving_serves(self, p: Play<R>, now: R)
        ensures
            self.driven(p, now).r.serves_as(p.r),
        decreases time_left(p.clock, now),
    {
        if p.clock.below(now) && p.clock.rank() < now.rank() {
            self.ticking_serves(p);
            let next = p.clock.sum(self.tick_dt());
            if p.clock.rank() < next.rank() {
                self.driving_serves(Play { clock: next, ..self.ticked(p) }, now);
            }
        }
    }

    proof fn draining_writes(self, p: Play<R>, ticks: nat)
        ensures
            self.drained(p, ticks).r.writes_as(p.r),
        decreases ticks,
    {
        if p.open.len() > 0 && ticks > 0 {
            let (eng, actions) = p.eng.ticked(p.clock);
            let w = self.wound_down(Play { eng, ..p }, actions, p.clock);
            self.winding_down_writes(Play { eng, ..p }, actions, p.clock);
            self.lapsing_serves(w.open, w.open.len(), w.r, w.clock);
            let q = self.sweep(w);
            self.draining_writes(
                Play { clock: p.clock.sum(self.tick_dt()), ..q },
                (ticks - 1) as nat,
            );
        }
    }

    proof fn closing_writes(
        self,
        open: Seq<(NodeId, Interval<R>)>,
        n: nat,
        r: Report<R>,
        clock: R,
    )
        ensures
            self.closed(open, n, r, clock).writes_as(r),
        decreases n,
    {
        if n > 0 {
            self.closing_writes(open, (n - 1) as nat, r, clock);
        }
    }

    /// After the last request nothing is written and nothing is served any more:
    /// what the engine is billed for requests and writes is what it was billed for
    /// by then.
    pub proof fn nothing_is_written_after_the_trace(self)
        ensures
            ({
                let r = self.report(Policy::Pcoe);
                let p = self.played(self.trace.len()).r;
                &&& r.request_cost == p.request_cost
                &&& r.requests == p.requests
                &&& r.cached_requests == p.cached_requests
                &&& r.create_cost == p.create_cost
                &&& r.creates == p.creates
                &&& r.total_cost == r.create_cost.sum(r.storage_cost).sum(r.request_cost)
            }),
    {
        let p = self.played(self.trace.len());
        let d = self.drained(p, 100_000);
        self.draining_writes(p, 100_000);
        self.closing_writes(d.open, d.open.len(), d.r, d.clock);
    }

    /// How much of the request `i` the engine serves from a cache: what it is told
    /// to read when the request comes, after the ticks before it.
    pub open spec fn engine_hit(self, i: int) -> u64 {
        let e = self.trace[i];
        let p = self.driven(self.played(i as nat), e.time_hours);
        min_u64(p.eng.observed(e.blocks, e.time_hours).1.cached_tokens, e.total_tokens)
    }
}

impl Case<Fixed> {
    /// What the request `i` costs with the engine.
    pub open spec fn engine_charge(self, i: int) -> int {
        let cached = self.engine_hit(i);
        charge(cached as int, self.prices.cached_read_per_mtok) + charge(
            self.trace[i].total_tokens - cached,
            self.prices.input_per_mtok,
        )
    }

    proof fn engine_charge_is_small(self, i: int, bound: int)
        requires
            self.orderly(bound),
            0 <= i < self.trace.len(),
        ensures
            0 <= self.engine_charge(i) <= self.full_charge(i),
            self.engine_hit(i) <= self.trace[i].total_tokens <= 9_000_000_000,
    {
        let e = self.trace[i];
        let cached = self.engine_hit(i);
        assert(e.total_tokens <= 9_000_000_000);
        tokens_are_charged(cached, self.prices.cached_read_per_mtok);
        tokens_are_charged((e.total_tokens - cached) as u64, self.prices.input_per_mtok);
        tokens_are_charged(e.total_tokens, self.prices.input_per_mtok);
        crate::sim::benchmark::parts_cost_no_more(
            cached,
            (e.total_tokens - cached) as u64,
            self.prices.cached_read_per_mtok,
            self.prices.input_per_mtok,
        );
    }

    #[verifier::rlimit(60)]
    proof fn played_is_billed(self, upto: nat, bound: int)
        requires
            self.orderly(bound),
            upto <= self.trace.len() <= u64::MAX,
            total_of(self.trace.len(), |i: int| self.full_charge(i)) <= i64::MAX,
        ensures
            ({
                let r = self.played(upto).r;
                &&& r.request_cost.units == total_of(upto, |i: int| self.engine_charge(i))
                &&& r.requests == upto
                &&& r.cached_requests <= upto
                &&& r.cached_requests == total_of(
                    upto,
                    |i: int|
                        if self.engine_hit(i) > 0 {
                            1int
                        } else {
                            0
                        },
                )
            }),
        decreases upto,
    {
        let n = self.trace.len();
        let f = |i: int| self.full_charge(i);
        let g = |i: int| self.engine_charge(i);
        assert forall|i: int| 0 <= i < n implies 0 <= #[trigger] g(i) && g(i) <= f(i) by {
            self.engine_charge_is_small(i, bound);
        }
        total_is_ordered(n, g, f);
        total_grows(upto, n, g);
        if upto > 0 {
            let k = (upto - 1) as nat;
            total_grows(k, n, g);
            total_grows(k, upto, g);
            self.played_is_billed(k, bound);
            let e = self.trace[k as int];
            let p = self.driven(self.played(k), e.time_hours);
            self.driving_serves(self.played(k), e.time_hours);
            let (eng, seen) = p.eng.observed(e.blocks, e.time_hours);
            let q = self.settled(Play { eng, ..p }, seen.actions, e.time_hours);
            self.settling_serves(Play { eng, ..p }, seen.actions, e.time_hours);
            let cached = self.engine_hit(k as int);
            self.engine_charge_is_small(k as int, bound);
            assert(g(k as int) == self.engine_charge(k as int));
            assert(total_of(upto, g) == total_of(k, g) + g(k as int));
            request_is_billed(q.r, self.prices, e.total_tokens, cached);
        }
    }
}

/// The engine's requests are billed one by one: each pays the read price for what
/// the engine tells it to read, and the input price for the rest. So requests cost
/// no more with the engine than without a cache; what it adds is writes and
/// storage.
pub proof fn engine_requests_are_billed(c: Case<Fixed>, bound: int)
    requires
        c.orderly(bound),
        c.trace.len() <= u64::MAX,
        total_of(c.trace.len(), |i: int| c.full_charge(i)) <= i64::MAX,
    ensures
        ({
            let r = c.report(Policy::Pcoe);
            let n = c.trace.len();
            &&& r.request_cost.units == total_of(n, |i: int| c.engine_charge(i))
            &&& r.requests == n
            &&& r.cached_requests == total_of(
                n,
                |i: int|
                    if c.engine_hit(i) > 0 {
                        1int
                    } else {
                        0
                    },
            )
            &&& r.request_cost.units <= c.report(Policy::NoCache).total_cost.units
        }),
{
    let n = c.trace.len();
    c.nothing_is_written_after_the_trace();
    c.played_is_billed(n, bound);
    c.uncached_pays_in_full(n, bound);
    let f = |i: int| c.full_charge(i);
    let g = |i: int| c.engine_charge(i);
    assert forall|i: int| 0 <= i < n implies #[trigger] g(i) <= f(i) by {
        c.engine_charge_is_small(i, bound);
    }
    total_is_ordered(n, g, f);
}

impl Case<Fixed> {
    /// Ticks come one interval after another, the extension lead or a minute,
    /// whichever is longer, until the time of a request is reached, and not
    /// beyond the first tick that is due by then.
    pub proof fn ticks_come_by_the_interval(self, p: Play<Fixed>, now: Fixed)
        requires
            self.cfg.extend_lead_hours.units <= 1_000_000_000_000_000,
            now.units <= 0x3000_0000_0000_0000,
        ensures
            ({
                let dt = if self.cfg.extend_lead_hours.units > 16_666_666 {
                    self.cfg.extend_lead_hours.units as int
                } else {
                    16_666_666
                };
                let q = self.driven(p, now);
                &&& q.clock.units >= now.units
                &&& p.clock.units >= now.units ==> q == p
                &&& p.clock.units < now.units ==> {
                    &&& q.clock.units < now.units + dt
                    &&& self.driven(p, now) == self.driven(
                        Play {
                            clock: Fixed { units: (p.clock.units + dt) as i64 },
                            ..self.ticked(p)
                        },
                        now,
                    )
                }
            }),
        decreases time_left(p.clock, now),
    {
        assert(Fixed::int_of(1).units == 1_000_000_000 && Fixed::int_of(60).units
            == 60_000_000_000);
        assert(frac::<Fixed>(1, 60).units == 16_666_666);
        let dt = self.tick_dt();
        assert(16_666_666 <= dt.units <= 1_000_000_000_000_000);
        if p.clock.units < now.units {
            let next = p.clock.sum(dt);
            assert(next.units == p.clock.units + dt.units);
            self.ticks_come_by_the_interval(Play { clock: next, ..self.ticked(p) }, now);
        }
    }

    /// What the provider is billed and holds once an action was executed. A create
    /// is written and opens an interval that lapses after the hold time; an
    /// extension moves the time at which it lapses; a deletion closes it, and it
    /// is billed from when it was opened until now.
    pub proof fn provider_executes(self, p: Play<Fixed>, a: Action<Fixed>, now: Fixed)
        ensures
            ({
                let q = self.applied(p, a, now);
                match a {
                    Action::Create { node, tokens, ttl_hours } => {
                        &&& q.open == entered(
                            p.open,
                            node,
                            Interval {
                                opened: now,
                                tokens,
                                expires: now.sum(
                                    match self.prices.storage_per_mtok_hour {
                                        Some(s) => self.prices.input_per_mtok.quot(s),
                                        None => Fixed::int_of(0),
                                    },
                                ),
                            },
                        )
                        &&& q.r == p.r.written(self.prices, tokens)
                    },
                    Action::PreCreate { node, tokens, ttl_hours } => {
                        &&& q.open == self.applied(
                            p,
                            Action::Create { node, tokens, ttl_hours },
                            now,
                        ).open
                        &&& q.r == p.r.written(self.prices, tokens)
                    },
                    Action::Extend { node, expires_at_hours } => {
                        &&& q.r.extends == crate::sim::model::bumped(p.r.extends)
                        &&& q.r == Report { extends: q.r.extends, ..p.r }
                        &&& !holds(p.open, node) ==> q.open == p.open
                        &&& holds(p.open, node) ==> {
                            let i = place(p.open, node);
                            let at = p.open[i].1;
                            q.open == p.open.update(
                                i,
                                (node, Interval { expires: expires_at_hours, ..at }),
                            )
                        }
                    },
                    Action::Delete { node } => {
                        &&& !holds(p.open, node) ==> q.open == p.open && q.r.storage_cost
                            == p.r.storage_cost
                        &&& holds(p.open, node) ==> {
                            let i = place(p.open, node);
                            let at = p.open[i].1;
                            &&& q.open == p.open.remove(i)
                            &&& q.r.storage_cost == p.r.stored(
                                self.prices,
                                at.opened,
                                at.tokens,
                                now,
                            ).storage_cost
                        }
                        &&& q.r.deletes == crate::sim::model::bumped(p.r.deletes)
                        &&& q.r.writes_as(p.r)
                    },
                }
            }),
    {
    }

    /// What lapses is billed: an interval leaves the provider's books exactly where
    /// its expiry is reached, billed from when it was opened until then; the others
    /// stay, in order.
    pub proof fn lapsed_intervals_are_billed(
        self,
        open: Seq<(NodeId, Interval<Fixed>)>,
        n: nat,
        r: Report<Fixed>,
        clock: Fixed,
        i: int,
    )
        requires
            n <= open.len(),
            0 <= i < n,
        ensures
            ({
                let (kept, s) = self.lapsed(open, n, r, clock);
                let (few, t) = self.lapsed(open, i as nat, r, clock);
                let (more, u) = self.lapsed(open, (i + 1) as nat, r, clock);
                let at = open[i].1;
                &&& if at.expires.units <= clock.units {
                    &&& more == few
                    &&& u == t.stored(self.prices, at.opened, at.tokens, at.expires)
                } else {
                    more == few.push(open[i]) && u == t
                }
                &&& few.is_prefix_of(kept)
                &&& more.is_prefix_of(kept)
                &&& forall|k: int| 0 <= k < kept.len() ==> (#[trigger] kept[k]).1.expires.units
                    > clock.units
            }),
        decreases n,
    {
        let (kept, s) = self.lapsed(open, n, r, clock);
        if n > 0 {
            let m = (n - 1) as nat;
            let (most, v) = self.lapsed(open, m, r, clock);
            if i < m {
                self.lapsed_intervals_are_billed(open, m, r, clock, i);
                assert(most.is_prefix_of(kept)) by {
                    assert(kept.subrange(0, most.len() as int) =~= most);
                }
                let few = self.lapsed(open, i as nat, r, clock).0;
                let more = self.lapsed(open, (i + 1) as nat, r, clock).0;
                assert(few =~= kept.subrange(0, few.len() as int)) by {
                    assert(few == most.subrange(0, few.len() as int));
                }
                assert(more =~= kept.subrange(0, more.len() as int)) by {
                    assert(more == most.subrange(0, more.len() as int));
                }
            } else {
                if m > 0 {
                    self.lapsed_intervals_are_billed(open, m, r, clock, m - 1);
                }
                assert(most =~= kept.subrange(0, most.len() as int));
                assert(kept =~= kept.subrange(0, kept.len() as int));
            }
            assert forall|k: int| 0 <= k < kept.len() implies (#[trigger] kept[k]).1.expires.units
                > clock.units by {
                if k < most.len() {
                    assert(kept[k] == most[k]);
                }
            }
        }
    }
}

/// What a policy saves in percent: a hundred times what it spends less than the
/// baseline, over what the baseline spends, but for rounding. It saves nothing
/// where both spend the same, or where the baseline spends nothing.
pub proof fn savings_are_in_percent(r: Report<Fixed>, baseline: Report<Fixed>)
    requires
        0 <= r.total_cost.units <= 9_000_000_000_000_000,
        baseline.total_cost.units > 0 ==> r.total_cost.units * 1_000_000_000
            <= 50_000_000_000_000_000 * baseline.total_cost.units,
    ensures
        ({
            let s = r.saved(baseline).units as int;
            let (a, b) = (r.total_cost.units as int, baseline.total_cost.units as int);
            &&& b <= 0 ==> s == 0
            &&& b > 0 ==> {
                &&& 100_000_000_000 * (b - a) <= s * b
                &&& s * b < 100_000_000_000 * (b - a) + 100 * b
                &&& a == b ==> s == 0
                &&& a == 0 ==> s == 100_000_000_000
            }
        }),
{
    let (a, b) = (r.total_cost.units as int, baseline.total_cost.units as int);
    if b > 0 {
        let q = (a * 1_000_000_000) / b;
        vstd::arithmetic::div_mod::lemma_fundamental_div_mod(a * 1_000_000_000, b);
        vstd::arithmetic::div_mod::lemma_mod_bound(a * 1_000_000_000, b);
        vstd::arithmetic::div_mod::lemma_div_pos_is_pos(a * 1_000_000_000, b);
        assert(b * q == q * b) by (nonlinear_arith);
        assert(q <= 50_000_000_000_000_000) by (nonlinear_arith)
            requires
                q * b <= a * 1_000_000_000,
                a * 1_000_000_000 <= 50_000_000_000_000_000 * b,
                b > 0,
        ;
        let d = 1_000_000_000 - q;
        assert(Fixed::int_of(100).units == 100_000_000_000);
        assert(Fixed::int_of(1).units == 1_000_000_000);
        assert((100_000_000_000 * d) / 1_000_000_000 == 100 * d);
        assert(r.saved(baseline).units == 100 * d);
        assert((100 * d) * b == 100_000_000_000 * b - 100 * (q * b)) by (nonlinear_arith)
            requires
                d == 1_000_000_000 - q,
        ;
        if a == b {
            vstd::arithmetic::div_mod::lemma_div_multiples_vanish(1_000_000_000, b);
            assert(b * 1_000_000_000 == 1_000_000_000 * b);
        }
        if a == 0 {
            vstd::arithmetic::div_mod::lemma_div_of0(b);
        }
    }
}

/// The hit rate is the share of requests that were served from a cache.
pub proof fn hit_rate_is_a_share(r: Report<Fixed>)
    requires
        r.cached_requests <= r.requests <= 9_000_000_000,
    ensures
        ({
            let h = r.hits().units as int;
            &&& r.requests == 0 ==> h == 0
            &&& r.requests > 0 ==> h * r.requests <= r.cached_requests * 1_000_000_000 < (h + 1)
                * r.requests
            &&& 0 <= h <= 1_000_000_000
        }),
{
    if r.requests > 0 {
        let (a, b) = (r.cached_requests as int, r.requests as int);
        assert(Fixed::int_of(r.cached_requests).units == a * 1_000_000_000);
        assert(Fixed::int_of(r.requests).units == b * 1_000_000_000);
        let x = a * 1_000_000_000;
        let q = x / b;
        vstd::arithmetic::div_mod::lemma_fundamental_div_mod(x, b);
        vstd::arithmetic::div_mod::lemma_mod_bound(x, b);
        vstd::arithmetic::div_mod::lemma_div_pos_is_pos(x, b);
        assert(b * q == q * b) by (nonlinear_arith);
        assert((q + 1) * b == q * b + b) by (nonlinear_arith);
        assert(q <= 1_000_000_000) by (nonlinear_arith)
            requires
                q * b <= x,
                x == a * 1_000_000_000,
                a <= b,
                b > 0,
        ;
        assert((a * 1_000_000_000) * 1_000_000_000 == q * (b * 1_000_000_000) + (x % b)
            * 1_000_000_000) by (nonlinear_arith)
            requires
                x == q * b + x % b,
                x == a * 1_000_000_000,
        ;
        vstd::arithmetic::div_mod::lemma_fundamental_div_mod_converse(
            (a * 1_000_000_000) * 1_000_000_000,
            b * 1_000_000_000,
            q,
            (x % b) * 1_000_000_000,
        );
    }
}

/// The first report of a policy is found.
proof fn first_match(all: Seq<(Policy<Fixed>, Report<Fixed>)>, p: Policy<Fixed>, i: int)
    requires
        0 <= i < all.len(),
        same_policy(all[i].0, p),
        forall|j: int| 0 <= j < i ==> !same_policy((#[trigger] all[j]).0, p),
    ensures
        report_of(all, p) == Some(all[i].1),
    decreases i,
{
    if i > 0 {
        let rest = all.drop_first();
        assert(!same_policy(all[0].0, p));
        assert forall|j: int| 0 <= j < i - 1 implies !same_policy((#[trigger] rest[j]).0, p) by {
            assert(rest[j] == all[j + 1]);
        }
        assert(rest[i - 1] == all[i]);
        first_match(rest, p, i - 1);
    }
}

/// Whether reports are those of the compared policies, in this order: no caching,
/// caching everything, an idle time of an hour, the engine and hindsight.
pub open spec fn lined_up(all: Seq<(Policy<Fixed>, Report<Fixed>)>) -> bool {
    &&& all.len() == 5
    &&& all[0].0 == Policy::<Fixed>::NoCache
    &&& all[1].0 == Policy::<Fixed>::CacheEverything
    &&& all[2].0 == Policy::StaticTtl(Fixed { units: 1_000_000_000 })
    &&& all[3].0 == Policy::<Fixed>::Pcoe
    &&& all[4].0 == Policy::<Fixed>::ReferenceOracle
}

/// Each report of a comparison is found by its policy, and its ratio is what the
/// engine spends over what hindsight does, rounded down.
pub proof fn reports_are_found(all: Seq<(Policy<Fixed>, Report<Fixed>)>)
    requires
        lined_up(all),
    ensures
        forall|i: int| 0 <= i < 5 ==> report_of(all, (#[trigger] all[i]).0) == Some(all[i].1),
        ({
            let spent = all[3].1.total_cost.units as int;
            let least = all[4].1.total_cost.units as int;
            match ratio_of(all) {
                Some(q) => {
                    &&& least > 0
                    &&& 0 <= spent && q.units < i64::MAX ==> q.units * least <= spent
                        * 1_000_000_000 < (q.units + 1) * least
                },
                None => least <= 0,
            }
        }),
{
    assert forall|i: int| 0 <= i < 5 implies report_of(all, (#[trigger] all[i]).0) == Some(
        all[i].1,
    ) by {
        assert forall|j: int| 0 <= j < i implies !same_policy((#[trigger] all[j]).0, all[i].0) by {
            assert(j == 0 || j == 1 || j == 2 || j == 3);
            assert(i == 1 || i == 2 || i == 3 || i == 4);
        }
        assert(i == 0 || i == 1 || i == 2 || i == 3 || i == 4);
        first_match(all, all[i].0, i);
    }
    assert(report_of(all, all[3].0) == Some(all[3].1));
    assert(report_of(all, all[4].0) == Some(all[4].1));
    let spent = all[3].1.total_cost.units as int;
    let least = all[4].1.total_cost.units as int;
    if least > 0 && spent >= 0 {
        let x = spent * 1_000_000_000;
        let q = x / least;
        vstd::arithmetic::div_mod::lemma_fundamental_div_mod(x, least);
        vstd::arithmetic::div_mod::lemma_mod_bound(x, least);
        vstd::arithmetic::div_mod::lemma_div_pos_is_pos(x, least);
        assert(least * q == q * least) by (nonlinear_arith);
        assert((q + 1) * least == q * least + least) by (nonlinear_arith);
    }
}

/// A comparison holds the compared policies, each with the report of its own
/// replay.
pub proof fn comparison_is_by_policy(c: Case<Fixed>)
    ensures
        lined_up(c.comparison()),
        forall|i: int|
            0 <= i < 5 ==> (#[trigger] c.comparison()[i]).1 == c.report(c.comparison()[i].0),
{
    assert(Fixed::int_of(1).units == 1_000_000_000);
    assert(frac::<Fixed>(1, 1) == Fixed { units: 1_000_000_000 });
}

impl Case<Fixed> {
    /// After the trace ticks go on, one interval after another, until no cache is
    /// open, or as many have come as are allowed.
    pub proof fn draining_goes_on(self, p: Play<Fixed>, ticks: nat) -> (n: nat)
        requires
            0 <= self.cfg.extend_lead_hours.units <= 1_000_000_000_000,
            p.clock.units + ticks * 1_000_000_000_000 <= i64::MAX,
        ensures
            n <= ticks,
            ({
                let dt = if self.cfg.extend_lead_hours.units > 16_666_666 {
                    self.cfg.extend_lead_hours.units as int
                } else {
                    16_666_666
                };
                let q = self.drained(p, ticks);
                &&& q.clock.units == p.clock.units + n * dt
                &&& q.open.len() == 0 || n == ticks
                &&& p.open.len() == 0 ==> n == 0
            }),
        decreases ticks,
    {
        assert(Fixed::int_of(1).units == 1_000_000_000 && Fixed::int_of(60).units
            == 60_000_000_000);
        assert(frac::<Fixed>(1, 60).units == 16_666_666);
        let dt = self.tick_dt();
        assert(16_666_666 <= dt.units <= 1_000_000_000_000);
        if p.open.len() == 0 || ticks == 0 {
            assert(0 * dt.units == 0);
            0
        } else {
            let (eng, actions) = p.eng.ticked(p.clock);
            let q = self.sweep(self.wound_down(Play { eng, ..p }, actions, p.clock));
            let k = (ticks - 1) as nat;
            assert(ticks * 1_000_000_000_000 == k * 1_000_000_000_000 + 1_000_000_000_000);
            let next = p.clock.sum(dt);
            assert(next.units == p.clock.units + dt.units);
            let m = self.draining_goes_on(Play { clock: next, ..q }, k);
            assert((m + 1) * dt.units == m * dt.units + dt.units) by (nonlinear_arith);
            m + 1
        }
    }
}

impl<R: Real> Case<R> {
    /// What is still open when draining ends is billed until then, one interval
    /// after another, and nothing is left out of the report.
    pub proof fn open_intervals_are_closed_at_the_end(self, i: int)
        requires
            0 <= i < self.drained(self.played(self.trace.len()), 100_000).open.len(),
        ensures
            ({
                let p = self.drained(self.played(self.trace.len()), 100_000);
                let at = p.open[i].1;
                let before = self.closed(p.open, i as nat, p.r, p.clock);
                let after = self.closed(p.open, (i + 1) as nat, p.r, p.clock);
                let r = self.report(Policy::Pcoe);
                &&& after == before.stored(self.prices, at.opened, at.tokens, p.clock)
                &&& self.closed(p.open, 0, p.r, p.clock) == p.r
                &&& r.storage_cost == self.closed(
                    p.open,
                    p.open.len(),
                    p.r,
                    p.clock,
                ).storage_cost
            }),
    {
    }
}

impl<R: Real> Case<R> {
    /// A replay goes request by request. Before each, ticks bring the clock to its
    /// time; then the engine observes it, the provider executes what the engine
    /// says, and the engine is told that creates have succeeded; and the request
    /// is served. At a tick the provider likewise executes what the engine says,
    /// and lets lapse what has expired.
    #[verifier::rlimit(60)]
    pub proof fn replay_goes_step_by_step(self, k: nat, p: Play<R>, a: Action<R>, now: R)
        requires
            k < self.trace.len(),
        ensures
            ({
                let e = self.trace[k as int];
                let at = self.driven(self.played(k), e.time_hours);
                let (eng, seen) = at.eng.observed(e.blocks, e.time_hours);
                let done = self.settled(Play { eng, ..at }, seen.actions, e.time_hours);
                let next = self.played(k + 1);
                &&& next.eng == done.eng
                &&& next.open == done.open
                &&& next.clock == at.clock
                &&& next.r == done.r.served(
                    self.prices,
                    e.total_tokens,
                    min_u64(seen.cached_tokens, e.total_tokens),
                )
            }),
            ({
                let (eng, said) = p.eng.ticked(p.clock);
                let done = self.settled(Play { eng, ..p }, said, p.clock);
                let next = self.ticked(p);
                &&& next.eng == done.eng
                &&& next.clock == p.clock
                &&& (next.open, next.r) == self.lapsed(
                    done.open,
                    done.open.len(),
                    done.r,
                    p.clock,
                )
            }),
            ({
                let done = self.settled(p, seq![a], now);
                &&& done.open == self.applied(p, a, now).open
                &&& done.r == self.applied(p, a, now).r
                &&& done.eng == match a {
                    Action::Create { node, tokens, ttl_hours } => p.eng.confirmed(
                        node as int,
                        now,
                    ),
                    Action::PreCreate { node, tokens, ttl_hours } => p.eng.confirmed(
                        node as int,
                        now,
                    ),
                    _ => p.eng,
                }
            }),
            self.played(0).open.len() == 0,
            self.played(0).eng.cfg == self.cfg,
            self.played(0).eng.prices == self.prices,
            self.played(0).eng.trie.nodes.len() == 1,
            self.played(0).clock == self.trace[0].time_hours,
    {
        let e = self.trace[k as int];
        let at = self.driven(self.played(k), e.time_hours);
        let (eng, seen) = at.eng.observed(e.blocks, e.time_hours);
        self.settled_keeps_clock(Play { eng, ..at }, seen.actions, e.time_hours);
        let (eng2, said) = p.eng.ticked(p.clock);
        self.settled_keeps_clock(Play { eng: eng2, ..p }, said, p.clock);
        let none = seq![a].drop_last();
        assert(none =~= Seq::empty());
        assert(self.settled(p, none, now) == p);
        assert(seq![a].last() == a);
    }
}

} // verus!
