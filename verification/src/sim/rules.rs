//! What caching by a fixed idle time does, request by request.
use vstd::prelude::*;

use crate::fixed::Fixed;
use crate::number::Real;
use crate::sim::benchmark::{each_once, place_finds};
use crate::sim::model::{entered, holds, place, Case, Stay};
use crate::sim::spending::{charge, tokens_are_charged};
use crate::sim::{Policy, Report};
use crate::total::{total_changes, total_grows, total_is_ordered, total_of};
use crate::trie::NodeId;

verus! {

/// Whether a ledger has an entry for a node.
spec fn listed<T>(ledger: Seq<(NodeId, T)>, node: NodeId) -> bool {
    exists|m: int| 0 <= m < ledger.len() && (#[trigger] ledger[m]).0 == node
}

proof fn holds_is_listed<T>(ledger: Seq<(NodeId, T)>, node: NodeId)
    ensures
        holds(ledger, node) == listed(ledger, node),
{
    place_finds(ledger, node);
    if listed(ledger, node) {
        let m = choose|m: int| 0 <= m < ledger.len() && (#[trigger] ledger[m]).0 == node;
        if place(ledger, node) >= ledger.len() {
            assert(ledger[m].0 != node);
        }
    }
}

impl Case<Fixed> {
    /// Whether the request `i` finds its prefix in a cache that the request `j`
    /// wrote or read: `j` is the last before it to share the prefix, and came no
    /// longer than the idle time before it.
    pub open spec fn feeds(self, ttl: Option<Fixed>, j: int, i: int) -> bool {
        &&& 0 <= j < i
        &&& self.family(self.trace[j]) == self.family(self.trace[i])
        &&& forall|k: int|
            j < k < i ==> self.family(#[trigger] self.trace[k]) != self.family(self.trace[i])
        &&& ttl is Some ==> self.trace[i].time_hours.units - self.trace[j].time_hours.units
            <= ttl->0.units
    }

    /// Whether the request `i` reads its prefix from a cache.
    pub open spec fn is_hit(self, ttl: Option<Fixed>, i: int) -> bool {
        &&& self.family(self.trace[i]) is Some
        &&& exists|j: int| self.feeds(ttl, j, i)
    }

    /// The last of the first `upto` requests to share `x`.
    spec fn last_of(self, x: NodeId, upto: nat) -> int {
        self.members(x, upto).last() as int
    }

    /// The last member is one, and none comes after it.
    proof fn last_is_last(self, x: NodeId, upto: nat)
        requires
            upto <= self.trace.len() <= usize::MAX,
        ensures
            self.count(x, upto) > 0 ==> {
                let j = self.last_of(x, upto);
                &&& 0 <= j < upto
                &&& self.family(self.trace[j]) == Some(x)
                &&& forall|k: int|
                    j < k < upto ==> self.family(#[trigger] self.trace[k]) != Some(x)
            },
            self.count(x, upto) == 0 ==> forall|k: int|
                0 <= k < upto ==> self.family(#[trigger] self.trace[k]) != Some(x),
        decreases upto,
    {
        if upto > 0 {
            self.last_is_last(x, (upto - 1) as nat);
        }
    }

    /// Whether a stay of `x` is still open when a request comes at `now`.
    spec fn open_at(self, ttl: Option<Fixed>, x: NodeId, upto: nat, now: Fixed) -> bool {
        &&& self.count(x, upto) > 0
        &&& ttl is Some ==> now.units - self.trace[self.last_of(x, upto)].time_hours.units
            <= ttl->0.units
    }

    /// What the ledger of stays holds after the first `upto` requests, as of
    /// `now`.
    spec fn ledger_is(
        self,
        ttl: Option<Fixed>,
        live: Seq<(NodeId, Stay<Fixed>)>,
        upto: nat,
        now: Fixed,
    ) -> bool {
        &&& each_once(live)
        &&& forall|x: NodeId| #[trigger] listed(live, x) == self.open_at(ttl, x, upto, now)
        &&& forall|m: int|
            0 <= m < live.len() ==> (#[trigger] live[m]).1.last == self.trace[self.last_of(
                live[m].0,
                upto,
            )].time_hours
    }

    /// Lapsed stays, and no others, leave the ledger.
    #[verifier::rlimit(60)]
    proof fn expired_is_exact(
        self,
        live: Seq<(NodeId, Stay<Fixed>)>,
        n: nat,
        r: Report<Fixed>,
        h: Fixed,
        now: Fixed,
    )
        requires
            n <= live.len(),
        ensures
            ({
                let (kept, s) = self.expired(live, n, r, h, now);
                &&& forall|i: int|
                    0 <= i < kept.len() ==> {
                        &&& live.take(n as int).contains(#[trigger] kept[i])
                        &&& !h.below(now.diff(kept[i].1.last))
                    }
                &&& forall|m: int|
                    0 <= m < n && !h.below(now.diff((#[trigger] live[m]).1.last)) ==> kept.contains(
                        live[m],
                    )
                &&& each_once(live) ==> each_once(kept)
                &&& s.request_cost == r.request_cost
                &&& s.create_cost == r.create_cost
                &&& s.creates == r.creates
                &&& s.requests == r.requests
                &&& s.cached_requests == r.cached_requests
            }),
        decreases n,
    {
        if n > 0 {
            let k = (n - 1) as nat;
            self.expired_is_exact(live, k, r, h, now);
            let (few, s) = self.expired(live, k, r, h, now);
            let (kept, t) = self.expired(live, n, r, h, now);
            let part = live.take(n as int);
            let less = live.take(k as int);
            assert forall|e: (NodeId, Stay<Fixed>)| #[trigger] less.contains(e) implies {
                &&& part.contains(e)
                &&& each_once(live) ==> e.0 != live[n - 1].0
            } by {
                let i = choose|i: int| 0 <= i < less.len() && less[i] == e;
                assert(part[i] == e && live[i] == e);
            }
            assert(part[n - 1] == live[n - 1]);
            if h.below(now.diff(live[n - 1].1.last)) {
                assert(kept == few);
            } else {
                assert(kept == few.push(live[n - 1]));
                assert forall|i: int| 0 <= i < kept.len() implies part.contains(
                    #[trigger] kept[i],
                ) && !h.below(now.diff(kept[i].1.last)) by {
                    if i < few.len() {
                        assert(kept[i] == few[i]);
                    }
                }
                assert forall|m: int|
                    0 <= m < n && !h.below(now.diff((#[trigger] live[m]).1.last)) implies
                    kept.contains(live[m]) by {
                    if m < k {
                        assert(few.contains(live[m]));
                        let i = choose|i: int| 0 <= i < few.len() && few[i] == live[m];
                        assert(kept[i] == live[m]);
                    } else {
                        assert(kept[few.len() as int] == live[m]);
                    }
                }
                if each_once(live) {
                    assert forall|i: int, j: int| 0 <= i < j < kept.len() implies (
                    #[trigger] kept[i]).0 != (#[trigger] kept[j]).0 by {
                        assert(kept[i] == few[i]);
                        assert(less.contains(few[i]));
                        if j < few.len() {
                            assert(kept[j] == few[j]);
                        }
                    }
                }
            }
        }
    }

    /// The ledger before a request holds the stays that are still open then.
    #[verifier::rlimit(60)]
    proof fn ready_is_exact(self, ttl: Option<Fixed>, upto: nat, bound: int)
        requires
            self.orderly(bound),
            upto < self.trace.len(),
            self.ledger_is(
                ttl,
                self.static_run(ttl, upto).0,
                upto,
                if upto == 0 {
                    self.trace[0].time_hours
                } else {
                    self.trace[upto - 1].time_hours
                },
            ),
        ensures
            self.ledger_is(
                ttl,
                self.static_ready(ttl, upto).0,
                upto,
                self.trace[upto as int].time_hours,
            ),
            ({
                let (r, s) = (self.static_run(ttl, upto).1, self.static_ready(ttl, upto).1);
                &&& s.request_cost == r.request_cost
                &&& s.create_cost == r.create_cost
                &&& s.creates == r.creates
                &&& s.requests == r.requests
                &&& s.cached_requests == r.cached_requests
            }),
    {
        let (live, r) = self.static_run(ttl, upto);
        let now = self.trace[upto as int].time_hours;
        let before = if upto == 0 {
            self.trace[0].time_hours
        } else {
            self.trace[upto - 1].time_hours
        };
        assert(before.units <= now.units);
        if let Some(h) = ttl {
            self.expired_is_exact(live, live.len(), r, h, now);
            let (kept, s) = self.expired(live, live.len(), r, h, now);
            assert(live.take(live.len() as int) =~= live);
            assert forall|x: NodeId| #[trigger] listed(kept, x) == self.open_at(
                ttl,
                x,
                upto,
                now,
            ) by {
                self.last_is_last(x, upto);
                assert(listed(live, x) == self.open_at(ttl, x, upto, before));
                if self.count(x, upto) > 0 {
                    let j = self.last_of(x, upto);
                    self.at_times(j, bound);
                    self.at_times(upto as int, bound);
                }
                if listed(kept, x) {
                    let i = choose|i: int| 0 <= i < kept.len() && (#[trigger] kept[i]).0 == x;
                    assert(live.contains(kept[i]));
                    let m = choose|m: int| 0 <= m < live.len() && live[m] == kept[i];
                    assert(live[m].0 == x);
                }
                if self.open_at(ttl, x, upto, now) {
                    assert(listed(live, x));
                    let m = choose|m: int| 0 <= m < live.len() && (#[trigger] live[m]).0 == x;
                    assert(kept.contains(live[m]));
                    let i = choose|i: int| 0 <= i < kept.len() && kept[i] == live[m];
                    assert(kept[i].0 == x);
                }
            }
            assert forall|i: int| 0 <= i < kept.len() implies (#[trigger] kept[i]).1.last
                == self.trace[self.last_of(kept[i].0, upto)].time_hours by {
                assert(live.contains(kept[i]));
                let m = choose|m: int| 0 <= m < live.len() && live[m] == kept[i];
                assert(live[m].1.last == self.trace[self.last_of(live[m].0, upto)].time_hours);
            }
        } else {
            assert forall|x: NodeId| #[trigger] listed(live, x) == self.open_at(
                ttl,
                x,
                upto,
                now,
            ) by {
                assert(self.open_at(ttl, x, upto, before) == self.open_at(ttl, x, upto, now));
            }
        }
    }

    /// A stay is open at a request exactly where the request is a hit.
    proof fn open_is_hit(self, ttl: Option<Fixed>, i: int, x: NodeId, bound: int)
        requires
            self.orderly(bound),
            0 <= i < self.trace.len(),
            self.family(self.trace[i]) == Some(x),
        ensures
            self.open_at(ttl, x, i as nat, self.trace[i].time_hours) == self.is_hit(ttl, i),
    {
        self.last_is_last(x, i as nat);
        if self.open_at(ttl, x, i as nat, self.trace[i].time_hours) {
            let j = self.last_of(x, i as nat);
            assert(self.feeds(ttl, j, i));
        }
        if self.is_hit(ttl, i) {
            let j = choose|j: int| self.feeds(ttl, j, i);
            assert(self.family(self.trace[j]) == Some(x));
            let l = self.last_of(x, i as nat);
            if l < j {
                assert(self.family(self.trace[j]) != Some(x));
            } else if j < l {
                assert(self.family(self.trace[l]) != self.family(self.trace[i]));
            }
        }
    }

    /// The ledger after each request holds what is open then.
    #[verifier::rlimit(60)]
    proof fn run_is_exact(self, ttl: Option<Fixed>, upto: nat, bound: int)
        requires
            self.orderly(bound),
            upto <= self.trace.len(),
            ttl is Some ==> ttl->0.units >= 0,
        ensures
            upto < self.trace.len() || upto > 0 ==> self.ledger_is(
                ttl,
                self.static_run(ttl, upto).0,
                upto,
                if upto == 0 {
                    self.trace[0].time_hours
                } else {
                    self.trace[upto - 1].time_hours
                },
            ),
        decreases upto,
    {
        if upto == 0 {
            assert forall|x: NodeId| !listed(self.static_run(ttl, 0).0, x) by {}
        } else {
            let k = (upto - 1) as nat;
            self.run_is_exact(ttl, k, bound);
            self.ready_is_exact(ttl, k, bound);
            let (live, r) = self.static_ready(ttl, k);
            let (out, s) = self.static_run(ttl, upto);
            let e = self.trace[k as int];
            let now = e.time_hours;
            assert((out, s) == self.static_step(live, r, e));
            match self.family(e) {
                Some(id) => {
                    place_finds(live, id);
                    holds_is_listed(live, id);
                    let p = place(live, id);
                    let entry = if holds(live, id) {
                        Stay { last: now, ..live[p].1 }
                    } else {
                        Stay { opened: now, last: now }
                    };
                    assert(out == entered(live, id, entry));
                    self.member_is_next(id, k as int);
                    assert(self.last_of(id, upto) == k);
                    assert forall|x: NodeId| x != id implies self.count(x, upto) == self.count(
                        x,
                        k,
                    ) && #[trigger] self.last_of(x, upto) == self.last_of(x, k) by {}
                    assert forall|x: NodeId| #[trigger] listed(out, x) == self.open_at(
                        ttl,
                        x,
                        upto,
                        now,
                    ) by {
                        if x == id {
                            if holds(live, id) {
                                assert(out[p].0 == id);
                            } else {
                                assert(out[live.len() as int].0 == id);
                            }
                        } else {
                            assert(self.last_of(x, upto) == self.last_of(x, k));
                            assert(listed(live, x) == self.open_at(ttl, x, k, now));
                            if listed(live, x) {
                                let m = choose|m: int|
                                    0 <= m < live.len() && (#[trigger] live[m]).0 == x;
                                assert(out[m] == live[m]);
                            }
                            if listed(out, x) {
                                let m = choose|m: int|
                                    0 <= m < out.len() && (#[trigger] out[m]).0 == x;
                                assert(out[m] == live[m]);
                            }
                        }
                    }
                    assert forall|m: int| 0 <= m < out.len() implies (#[trigger] out[m]).1.last
                        == self.trace[self.last_of(out[m].0, upto)].time_hours by {
                        if m < live.len() && out[m] == live[m] && out[m].0 != id {
                            assert(live[m].1.last == self.trace[self.last_of(
                                live[m].0,
                                k,
                            )].time_hours);
                            assert(self.last_of(out[m].0, upto) == self.last_of(out[m].0, k));
                        } else if holds(live, id) {
                            if m != p {
                                assert(live[m].0 != live[p].0);
                            }
                        } else if m < live.len() {
                            assert(live[m].0 != id);
                        }
                    }
                    assert(each_once(out)) by {
                        assert forall|i: int, j: int| 0 <= i < j < out.len() implies (
                        #[trigger] out[i]).0 != (#[trigger] out[j]).0 by {
                            if holds(live, id) {
                                assert(out[i].0 == live[i].0 && out[j].0 == live[j].0);
                            } else {
                                assert(out[i] == live[i] && live[i].0 != id);
                                if j < live.len() {
                                    assert(out[j] == live[j]);
                                }
                            }
                        }
                    }
                },
                None => {
                    assert forall|x: NodeId| self.count(x, upto) == self.count(x, k)
                        && #[trigger] self.last_of(x, upto) == self.last_of(x, k) by {}
                    assert forall|x: NodeId| #[trigger] listed(out, x) == self.open_at(
                        ttl,
                        x,
                        upto,
                        now,
                    ) by {
                        assert(self.last_of(x, upto) == self.last_of(x, k));
                        assert(listed(live, x) == self.open_at(ttl, x, k, now));
                    }
                    assert forall|m: int| 0 <= m < out.len() implies (#[trigger] out[m]).1.last
                        == self.trace[self.last_of(out[m].0, upto)].time_hours by {
                        assert(live[m].1.last == self.trace[self.last_of(
                            live[m].0,
                            k,
                        )].time_hours);
                        assert(self.last_of(out[m].0, upto) == self.last_of(out[m].0, k));
                    }
                },
            }
        }
    }
}

impl Case<Fixed> {
    /// What the request `i` costs: its prefix at the read price where it is a hit,
    /// and all else at the input price.
    pub open spec fn request_charge(self, ttl: Option<Fixed>, i: int) -> int {
        let e = self.trace[i];
        if self.is_hit(ttl, i) {
            let tokens = self.tokens(self.family(e)->0);
            charge(tokens as int, self.prices.cached_read_per_mtok) + charge(
                e.total_tokens - tokens,
                self.prices.input_per_mtok,
            )
        } else {
            self.full_charge(i)
        }
    }

    /// What is written for the request `i`: its prefix, where it shares one worth
    /// caching and does not find it.
    pub open spec fn write_charge(self, ttl: Option<Fixed>, i: int) -> int {
        let e = self.trace[i];
        if self.family(e) is Some && !self.is_hit(ttl, i) {
            charge(self.tokens(self.family(e)->0) as int, self.prices.input_per_mtok)
        } else {
            0
        }
    }

    /// The charges of a request are not negative, and at most its full one.
    proof fn charges_are_small(self, ttl: Option<Fixed>, i: int, bound: int)
        requires
            self.orderly(bound),
            0 <= i < self.trace.len(),
        ensures
            0 <= self.request_charge(ttl, i) <= self.full_charge(i),
            0 <= self.write_charge(ttl, i) <= self.full_charge(i),
    {
        let e = self.trace[i];
        assert(e.total_tokens <= 9_000_000_000);
        self.family_is_a_node(i, bound);
        let price = self.prices.input_per_mtok;
        tokens_are_charged(e.total_tokens, price);
        if let Some(x) = self.family(e) {
            let t = self.tokens(x);
            tokens_are_charged(t, self.prices.cached_read_per_mtok);
            tokens_are_charged(t, price);
            tokens_are_charged((e.total_tokens - t) as u64, price);
            crate::sim::benchmark::parts_cost_no_more(
                t,
                (e.total_tokens - t) as u64,
                self.prices.cached_read_per_mtok,
                price,
            );
            crate::sim::benchmark::parts_cost_no_more(
                t,
                (e.total_tokens - t) as u64,
                price,
                price,
            );
        }
    }

    /// What is spent on requests and on writes, so far.
    #[verifier::rlimit(60)]
    proof fn run_spends_by_hits(self, ttl: Option<Fixed>, upto: nat, bound: int)
        requires
            self.orderly(bound),
            upto <= self.trace.len(),
            ttl is Some ==> ttl->0.units >= 0,
            total_of(self.trace.len(), |i: int| self.full_charge(i)) <= i64::MAX,
        ensures
            ({
                let r = self.static_run(ttl, upto).1;
                &&& r.request_cost.units == total_of(upto, |i: int| self.request_charge(ttl, i))
                &&& r.create_cost.units == total_of(upto, |i: int| self.write_charge(ttl, i))
            }),
        decreases upto,
    {
        let f = |i: int| self.full_charge(i);
        let g = |i: int| self.request_charge(ttl, i);
        let h = |i: int| self.write_charge(ttl, i);
        let n = self.trace.len();
        assert forall|i: int| 0 <= i < n implies 0 <= #[trigger] g(i) && g(i) <= f(i) by {
            self.charges_are_small(ttl, i, bound);
        }
        assert forall|i: int| 0 <= i < n implies 0 <= #[trigger] h(i) && h(i) <= f(i) by {
            self.charges_are_small(ttl, i, bound);
        }
        total_is_ordered(n, g, f);
        total_is_ordered(n, h, f);
        total_grows(upto, n, g);
        total_grows(upto, n, h);
        if upto > 0 {
            let k = (upto - 1) as nat;
            total_grows(k, n, g);
            total_grows(k, n, h);
            self.run_spends_by_hits(ttl, k, bound);
            self.run_is_exact(ttl, k, bound);
            self.ready_is_exact(ttl, k, bound);
            let (live, r) = self.static_ready(ttl, k);
            let e = self.trace[k as int];
            assert(e.total_tokens <= 9_000_000_000);
            self.family_is_a_node(k as int, bound);
            tokens_are_charged(e.total_tokens, self.prices.input_per_mtok);
            tokens_are_charged(0, self.prices.cached_read_per_mtok);
            match self.family(e) {
                Some(x) => {
                    holds_is_listed(live, x);
                    self.open_is_hit(ttl, k as int, x, bound);
                    assert(listed(live, x) == self.open_at(ttl, x, k, e.time_hours));
                    let t = self.tokens(x);
                    tokens_are_charged(t, self.prices.cached_read_per_mtok);
                    tokens_are_charged(t, self.prices.input_per_mtok);
                    tokens_are_charged(
                        (e.total_tokens - t) as u64,
                        self.prices.input_per_mtok,
                    );
                },
                None => {},
            }
        }
    }

    /// How many caches are written and how many requests served from one, so far.
    #[verifier::rlimit(60)]
    proof fn run_counts_hits(self, ttl: Option<Fixed>, upto: nat, bound: int)
        requires
            self.orderly(bound),
            upto <= self.trace.len() <= u64::MAX,
            ttl is Some ==> ttl->0.units >= 0,
        ensures
            ({
                let r = self.static_run(ttl, upto).1;
                &&& r.creates == total_of(
                    upto,
                    |i: int|
                        if self.family(self.trace[i]) is Some && !self.is_hit(ttl, i) {
                            1int
                        } else {
                            0
                        },
                )
                &&& r.cached_requests == total_of(
                    upto,
                    |i: int|
                        if self.is_hit(ttl, i) && self.tokens(self.family(self.trace[i])->0) > 0 {
                            1int
                        } else {
                            0
                        },
                )
                &&& r.creates <= upto
                &&& r.cached_requests <= upto
            }),
        decreases upto,
    {
        if upto > 0 {
            let k = (upto - 1) as nat;
            self.run_counts_hits(ttl, k, bound);
            self.run_is_exact(ttl, k, bound);
            self.ready_is_exact(ttl, k, bound);
            let (live, r) = self.static_ready(ttl, k);
            let e = self.trace[k as int];
            if let Some(x) = self.family(e) {
                holds_is_listed(live, x);
                self.open_is_hit(ttl, k as int, x, bound);
                assert(listed(live, x) == self.open_at(ttl, x, k, e.time_hours));
            }
        }
    }

    /// Caching by an idle time writes a cache for each request that shares a prefix
    /// and does not find it, and counts as served from a cache each that does.
    pub proof fn fixed_rule_counts_hits(self, ttl: Option<Fixed>, bound: int)
        requires
            self.orderly(bound),
            self.trace.len() <= u64::MAX,
            ttl is Some ==> ttl->0.units >= 0,
        ensures
            ({
                let r = self.report(Self::rule(ttl));
                let n = self.trace.len();
                &&& r.creates == total_of(
                    n,
                    |i: int|
                        if self.family(self.trace[i]) is Some && !self.is_hit(ttl, i) {
                            1int
                        } else {
                            0
                        },
                )
                &&& r.cached_requests == total_of(
                    n,
                    |i: int|
                        if self.is_hit(ttl, i) && self.tokens(self.family(self.trace[i])->0) > 0 {
                            1int
                        } else {
                            0
                        },
                )
            }),
    {
        let n = self.trace.len();
        let (live, r) = self.static_run(ttl, n);
        self.run_counts_hits(ttl, n, bound);
        self.closing_spends_storage(ttl, live, live.len(), r);
    }

    /// Closing stays changes nothing but storage.
    proof fn closing_spends_storage(
        self,
        ttl: Option<Fixed>,
        live: Seq<(NodeId, Stay<Fixed>)>,
        n: nat,
        r: Report<Fixed>,
    )
        ensures
            ({
                let s = self.static_closed(ttl, live, n, r);
                &&& s.request_cost == r.request_cost
                &&& s.create_cost == r.create_cost
                &&& s.creates == r.creates
                &&& s.cached_requests == r.cached_requests
            }),
        decreases n,
    {
        if n > 0 {
            self.closing_spends_storage(ttl, live, (n - 1) as nat, r);
        }
    }

    /// The policy of an idle time: none caches everything for good.
    pub open spec fn rule(ttl: Option<Fixed>) -> Policy<Fixed> {
        match ttl {
            Some(h) => Policy::StaticTtl(h),
            None => Policy::CacheEverything,
        }
    }

    /// Caching by an idle time serves from a cache exactly the requests that share
    /// a prefix with one that came no longer than the idle time before; these pay
    /// the read price for the prefix. The others pay the input price for all, and
    /// once more for a prefix that they write for later ones.
    pub proof fn fixed_rule_spends_by_hits(self, ttl: Option<Fixed>, bound: int)
        requires
            self.orderly(bound),
            ttl is Some ==> ttl->0.units >= 0,
            total_of(self.trace.len(), |i: int| self.full_charge(i)) <= i64::MAX,
        ensures
            ({
                let r = self.report(Self::rule(ttl));
                let n = self.trace.len();
                &&& r.request_cost.units == total_of(n, |i: int| self.request_charge(ttl, i))
                &&& r.create_cost.units == total_of(n, |i: int| self.write_charge(ttl, i))
                &&& r.total_cost == r.create_cost.sum(r.storage_cost).sum(r.request_cost)
            }),
    {
        let n = self.trace.len();
        let (live, r) = self.static_run(ttl, n);
        self.run_spends_by_hits(ttl, n, bound);
        self.closing_spends_storage(ttl, live, live.len(), r);
    }

    // Storage.

    /// When the stay began in which the request `i` wrote or read its prefix.
    pub open spec fn opened_at(self, ttl: Option<Fixed>, i: int) -> Fixed
        decreases i,
    {
        if self.is_hit(ttl, i) {
            let j = choose|j: int| self.feeds(ttl, j, i);
            if 0 <= j < i {
                self.opened_at(ttl, j)
            } else {
                self.trace[i].time_hours
            }
        } else {
            self.trace[i].time_hours
        }
    }

    /// When a stay ends that was last read at `t`: once the idle time is over, and
    /// with the trace at the latest.
    pub open spec fn closed_at(self, ttl: Option<Fixed>, t: Fixed) -> int {
        match ttl {
            Some(h) => if t.units + h.units < self.end().units {
                t.units + h.units
            } else {
                self.end().units as int
            },
            None => self.end().units as int,
        }
    }

    /// What the storage of `tokens` costs over a time.
    pub open spec fn storage_charge(self, tokens: int, time: int) -> int {
        ((time * (1000 * tokens)) / 1_000_000_000 * self.prices.storage().units) / 1_000_000_000
    }

    /// Whether the request `i` is the last of a stay among the first `upto`: it
    /// shares a prefix worth caching, and none of them reads on from it.
    pub open spec fn ends_stay(self, ttl: Option<Fixed>, i: int, upto: nat) -> bool {
        &&& self.family(self.trace[i]) is Some
        &&& forall|k: int| i < k < upto ==> !#[trigger] self.feeds(ttl, i, k)
    }

    /// What the stay that ends with the request `i` costs; nothing where none
    /// does.
    pub open spec fn stay_charge(self, ttl: Option<Fixed>, i: int, upto: nat) -> int {
        if self.ends_stay(ttl, i, upto) {
            let t = self.trace[i].time_hours;
            self.storage_charge(
                self.tokens(self.family(self.trace[i])->0) as int,
                self.closed_at(ttl, t) - self.opened_at(ttl, i).units,
            )
        } else {
            0
        }
    }

    /// The storage of the prefix of the request `i` over the whole trace, the most
    /// that any stay costs.
    pub open spec fn longest_charge(self, i: int) -> int {
        match self.family(self.trace[i]) {
            Some(x) => self.storage_charge(
                self.tokens(x) as int,
                self.end().units - self.start().units,
            ),
            None => 0,
        }
    }

    /// Longer storage costs no less.
    proof fn storage_charge_grows(self, tokens: int, a: int, b: int)
        requires
            self.prices_in_order(),
            0 <= tokens,
            0 <= a <= b,
        ensures
            0 <= self.storage_charge(tokens, a) <= self.storage_charge(tokens, b),
    {
        let m = 1000 * tokens;
        let s = self.prices.storage().units as int;
        assert(0 <= a * m <= b * m) by (nonlinear_arith)
            requires
                0 <= a <= b,
                0 <= m,
        ;
        let (x, y) = ((a * m) / 1_000_000_000, (b * m) / 1_000_000_000);
        assert(0 <= x <= y);
        assert(0 <= x * s <= y * s) by (nonlinear_arith)
            requires
                0 <= x <= y,
                0 <= s,
        ;
    }

    /// A stay that is billed costs what it should.
    proof fn bill_is_exact(
        self,
        r: Report<Fixed>,
        x: NodeId,
        opened: Fixed,
        closed: Fixed,
    )
        requires
            self.prices_in_order(),
            self.tokens(x) <= 9_000_000_000,
            0 <= closed.units - opened.units <= 1_000_000_000_000_000,
            0 <= r.storage_cost.units,
            r.storage_cost.units + self.storage_charge(
                self.tokens(x) as int,
                closed.units - opened.units,
            ) <= i64::MAX,
        ensures
            r.stored(self.prices, opened, self.tokens(x), closed).storage_cost.units
                == r.storage_cost.units + self.storage_charge(
                self.tokens(x) as int,
                closed.units - opened.units,
            ),
    {
        let t = self.tokens(x);
        let span = closed.units - opened.units;
        let s = self.prices.storage();
        tokens_are_charged(t, s);
        crate::sim::benchmark::priced(t, s);
        self.storage_charge_grows(t as int, 0, span);
        let m = 1000 * t;
        assert(0 <= span * m <= 1_000_000_000_000_000 * 9_000_000_000_000) by (nonlinear_arith)
            requires
                0 <= span <= 1_000_000_000_000_000,
                0 <= m <= 9_000_000_000_000,
        ;
        let h = (span * m) / 1_000_000_000;
        assert(0 <= h * s.units) by (nonlinear_arith)
            requires
                0 <= h,
                0 <= s.units,
        ;
    }

    /// What open stays will cost.
    spec fn to_pay(self, ttl: Option<Fixed>, live: Seq<(NodeId, Stay<Fixed>)>) -> int
        decreases live.len(),
    {
        if live.len() == 0 {
            0
        } else {
            self.to_pay(ttl, live.drop_last()) + self.entry_charge(ttl, live.last())
        }
    }

    spec fn entry_charge(self, ttl: Option<Fixed>, entry: (NodeId, Stay<Fixed>)) -> int {
        self.storage_charge(
            self.tokens(entry.0) as int,
            self.closed_at(ttl, entry.1.last) - entry.1.opened.units,
        )
    }

    proof fn to_pay_of_update(
        self,
        ttl: Option<Fixed>,
        live: Seq<(NodeId, Stay<Fixed>)>,
        i: int,
        entry: (NodeId, Stay<Fixed>),
    )
        requires
            0 <= i < live.len(),
        ensures
            self.to_pay(ttl, live.update(i, entry)) == self.to_pay(ttl, live) + self.entry_charge(
                ttl,
                entry,
            ) - self.entry_charge(ttl, live[i]),
        decreases live.len(),
    {
        let out = live.update(i, entry);
        if i == live.len() - 1 {
            assert(out.drop_last() =~= live.drop_last());
        } else {
            self.to_pay_of_update(ttl, live.drop_last(), i, entry);
            assert(out.drop_last() =~= live.drop_last().update(i, entry));
        }
    }

    /// Whether a stay lies within the trace.
    spec fn stay_in_trace(self, entry: (NodeId, Stay<Fixed>)) -> bool {
        &&& self.tokens(entry.0) <= 9_000_000_000
        &&& self.start().units <= entry.1.opened.units <= entry.1.last.units <= self.end().units
    }

    /// What a stay costs is not negative.
    proof fn entry_costs(self, ttl: Option<Fixed>, entry: (NodeId, Stay<Fixed>), bound: int)
        requires
            self.orderly(bound),
            ttl is Some ==> ttl->0.units >= 0,
            self.stay_in_trace(entry),
        ensures
            0 <= self.entry_charge(ttl, entry),
            0 <= self.closed_at(ttl, entry.1.last) - entry.1.opened.units <= 1_000_000_000_000_000,
            entry.1.last.units <= self.closed_at(ttl, entry.1.last) <= self.end().units,
    {
        self.storage_charge_grows(
            self.tokens(entry.0) as int,
            0,
            self.closed_at(ttl, entry.1.last) - entry.1.opened.units,
        );
    }

    proof fn to_pay_is_positive(
        self,
        ttl: Option<Fixed>,
        live: Seq<(NodeId, Stay<Fixed>)>,
        bound: int,
    )
        requires
            self.orderly(bound),
            ttl is Some ==> ttl->0.units >= 0,
            forall|m: int| 0 <= m < live.len() ==> self.stay_in_trace(#[trigger] live[m]),
        ensures
            0 <= self.to_pay(ttl, live),
        decreases live.len(),
    {
        if live.len() > 0 {
            let rest = live.drop_last();
            assert forall|m: int| 0 <= m < rest.len() implies self.stay_in_trace(
                #[trigger] rest[m],
            ) by {
                assert(rest[m] == live[m]);
            }
            self.to_pay_is_positive(ttl, rest, bound);
            assert(self.stay_in_trace(live[live.len() - 1]));
            self.entry_costs(ttl, live.last(), bound);
        }
    }

    /// Stays that lapse pay what they will cost.
    #[verifier::rlimit(60)]
    proof fn lapsing_is_exact(
        self,
        live: Seq<(NodeId, Stay<Fixed>)>,
        n: nat,
        r: Report<Fixed>,
        h: Fixed,
        now: Fixed,
        bound: int,
    )
        requires
            self.orderly(bound),
            n <= live.len(),
            0 <= h.units,
            self.start().units <= now.units <= self.end().units,
            forall|m: int| 0 <= m < live.len() ==> self.stay_in_trace(#[trigger] live[m]),
            0 <= r.storage_cost.units,
            r.storage_cost.units + self.to_pay(Some(h), live.take(n as int)) <= i64::MAX,
        ensures
            ({
                let (kept, s) = self.expired(live, n, r, h, now);
                &&& forall|m: int| 0 <= m < kept.len() ==> live.contains(#[trigger] kept[m])
                &&& s.storage_cost.units + self.to_pay(Some(h), kept) == r.storage_cost.units
                    + self.to_pay(Some(h), live.take(n as int))
                &&& 0 <= s.storage_cost.units
                &&& 0 <= self.to_pay(Some(h), kept)
            }),
        decreases n,
    {
        let ttl = Some(h);
        if n > 0 {
            let k = (n - 1) as nat;
            let part = live.take(n as int);
            assert(part.drop_last() =~= live.take(k as int));
            assert(part.last() == live[n - 1]);
            let entry = live[n - 1];
            assert(self.stay_in_trace(entry));
            self.entry_costs(ttl, entry, bound);
            self.lapsing_is_exact(live, k, r, h, now, bound);
            let (few, s) = self.expired(live, k, r, h, now);
            let (kept, t) = self.expired(live, n, r, h, now);
            if h.below(now.diff(entry.1.last)) {
                let closed = entry.1.last.sum(h);
                assert(entry.1.last.units + h.units < now.units);
                assert(closed.units == self.closed_at(ttl, entry.1.last));
                self.bill_is_exact(s, entry.0, entry.1.opened, closed);
            } else {
                assert(kept.drop_last() =~= few);
                assert forall|m: int| 0 <= m < kept.len() implies live.contains(
                    #[trigger] kept[m],
                ) by {
                    if m < few.len() {
                        assert(kept[m] == few[m]);
                    } else {
                        assert(live[n - 1] == kept[m]);
                    }
                }
            }
        } else {
            assert(live.take(0) =~= Seq::empty());
        }
    }

    /// Stays that are open at the end pay what they will cost.
    proof fn closing_is_exact(
        self,
        ttl: Option<Fixed>,
        live: Seq<(NodeId, Stay<Fixed>)>,
        n: nat,
        r: Report<Fixed>,
        bound: int,
    )
        requires
            self.orderly(bound),
            n <= live.len(),
            ttl is Some ==> ttl->0.units >= 0,
            forall|m: int| 0 <= m < live.len() ==> self.stay_in_trace(#[trigger] live[m]),
            0 <= r.storage_cost.units,
            r.storage_cost.units + self.to_pay(ttl, live.take(n as int)) <= i64::MAX,
        ensures
            self.static_closed(ttl, live, n, r).storage_cost.units == r.storage_cost.units
                + self.to_pay(ttl, live.take(n as int)),
            self.static_closed(ttl, live, n, r).storage_cost.units >= 0,
        decreases n,
    {
        if n > 0 {
            let k = (n - 1) as nat;
            let part = live.take(n as int);
            assert(part.drop_last() =~= live.take(k as int));
            assert(part.last() == live[n - 1]);
            let entry = live[n - 1];
            assert(self.stay_in_trace(entry));
            self.entry_costs(ttl, entry, bound);
            self.closing_is_exact(ttl, live, k, r, bound);
            let s = self.static_closed(ttl, live, k, r);
            let closed = self.static_close(ttl, entry.1);
            assert(closed.units == self.closed_at(ttl, entry.1.last));
            self.bill_is_exact(s, entry.0, entry.1.opened, closed);
        } else {
            assert(live.take(0) =~= Seq::empty());
        }
    }
}

impl Case<Fixed> {
    /// A stay begins no later than its requests, and no earlier than the trace.
    proof fn opened_in_trace(self, ttl: Option<Fixed>, i: int, bound: int)
        requires
            self.orderly(bound),
            0 <= i < self.trace.len(),
        ensures
            self.start().units <= self.opened_at(ttl, i).units <= self.trace[i].time_hours.units,
            self.trace[i].time_hours.units <= self.end().units,
        decreases i,
    {
        self.at_times(i, bound);
        if self.is_hit(ttl, i) {
            let j = choose|j: int| self.feeds(ttl, j, i);
            self.opened_in_trace(ttl, j, bound);
            assert(self.trace[j].time_hours.units <= self.trace[i].time_hours.units);
        }
    }

    /// What a stay costs is not negative, and at most what a whole trace of
    /// storage does.
    proof fn stay_charge_is_small(self, ttl: Option<Fixed>, i: int, upto: nat, bound: int)
        requires
            self.orderly(bound),
            ttl is Some ==> ttl->0.units >= 0,
            0 <= i < self.trace.len(),
        ensures
            0 <= self.stay_charge(ttl, i, upto) <= self.longest_charge(i),
    {
        self.opened_in_trace(ttl, i, bound);
        if let Some(x) = self.family(self.trace[i]) {
            let t = self.tokens(x) as int;
            let span = self.closed_at(ttl, self.trace[i].time_hours) - self.opened_at(
                ttl,
                i,
            ).units;
            self.storage_charge_grows(t, 0, span);
            self.storage_charge_grows(t, span, self.end().units - self.start().units);
        }
    }

    /// Only one request feeds another.
    proof fn one_feeds(self, ttl: Option<Fixed>, i: int, j: int, k: int)
        requires
            self.feeds(ttl, i, k),
            self.feeds(ttl, j, k),
        ensures
            i == j,
    {
        if i < j {
            assert(self.family(self.trace[j]) != self.family(self.trace[k]));
        } else if j < i {
            assert(self.family(self.trace[i]) != self.family(self.trace[k]));
        }
    }

    /// What holds of the storage of the stays after the first `upto` requests.
    spec fn storage_is(
        self,
        ttl: Option<Fixed>,
        live: Seq<(NodeId, Stay<Fixed>)>,
        r: Report<Fixed>,
        upto: nat,
    ) -> bool {
        &&& 0 <= r.storage_cost.units
        &&& forall|m: int|
            0 <= m < live.len() ==> {
                &&& self.stay_in_trace(#[trigger] live[m])
                &&& live[m].1.opened == self.opened_at(ttl, self.last_of(live[m].0, upto))
            }
        &&& r.storage_cost.units + self.to_pay(ttl, live) == total_of(
            upto,
            |i: int| self.stay_charge(ttl, i, upto),
        )
    }

    /// The charges of stays stay in range.
    proof fn stays_in_range(self, ttl: Option<Fixed>, upto: nat, bound: int)
        requires
            self.orderly(bound),
            ttl is Some ==> ttl->0.units >= 0,
            upto <= self.trace.len(),
            total_of(self.trace.len(), |i: int| self.longest_charge(i)) <= i64::MAX,
        ensures
            0 <= total_of(upto, |i: int| self.stay_charge(ttl, i, upto)) <= i64::MAX,
    {
        let n = self.trace.len();
        let f = |i: int| self.stay_charge(ttl, i, upto);
        let g = |i: int| self.longest_charge(i);
        assert forall|i: int| 0 <= i < n implies 0 <= #[trigger] f(i) && f(i) <= g(i) by {
            self.stay_charge_is_small(ttl, i, upto, bound);
        }
        total_grows(upto, n, f);
        total_is_ordered(n, f, g);
    }

    proof fn ready_keeps_storage(self, ttl: Option<Fixed>, upto: nat, bound: int)
        requires
            self.orderly(bound),
            ttl is Some ==> ttl->0.units >= 0,
            upto < self.trace.len(),
            total_of(self.trace.len(), |i: int| self.longest_charge(i)) <= i64::MAX,
            self.storage_is(
                ttl,
                self.static_run(ttl, upto).0,
                self.static_run(ttl, upto).1,
                upto,
            ),
        ensures
            self.storage_is(
                ttl,
                self.static_ready(ttl, upto).0,
                self.static_ready(ttl, upto).1,
                upto,
            ),
    {
        let (live, r) = self.static_run(ttl, upto);
        self.stays_in_range(ttl, upto, bound);
        if let Some(h) = ttl {
            let now = self.trace[upto as int].time_hours;
            self.at_times(upto as int, bound);
            assert(live.take(live.len() as int) =~= live);
            assert forall|m: int| 0 <= m < live.len() implies self.stay_in_trace(
                #[trigger] live[m],
            ) by {}
            self.lapsing_is_exact(live, live.len(), r, h, now, bound);
            let (kept, s) = self.static_ready(ttl, upto);
            assert forall|m: int| 0 <= m < kept.len() implies {
                &&& self.stay_in_trace(#[trigger] kept[m])
                &&& kept[m].1.opened == self.opened_at(ttl, self.last_of(kept[m].0, upto))
            } by {
                assert(live.contains(kept[m]));
                let j = choose|j: int| 0 <= j < live.len() && live[j] == kept[m];
                assert(self.stay_in_trace(live[j]));
            }
        }
    }

    /// Which stays end changes with a request by the one that it reads on from.
    #[verifier::rlimit(60)]
    proof fn charges_move_on(self, ttl: Option<Fixed>, k: nat, bound: int)
        requires
            self.orderly(bound),
            k < self.trace.len(),
        ensures
            ({
                let before = total_of(k, |i: int| self.stay_charge(ttl, i, k));
                let after = total_of(k + 1, |i: int| self.stay_charge(ttl, i, k + 1));
                let mine = self.stay_charge(ttl, k as int, k + 1);
                &&& !self.is_hit(ttl, k as int) ==> after == before + mine
                &&& forall|j: int| #[trigger]
                    self.feeds(ttl, j, k as int) && self.family(self.trace[k as int]) is Some
                        ==> after == before - self.stay_charge(ttl, j, k) + mine
            }),
    {
        let f = |i: int| self.stay_charge(ttl, i, k);
        let g = |i: int| self.stay_charge(ttl, i, k + 1);
        assert forall|i: int| 0 <= i < k && !(self.feeds(ttl, i, k as int) && self.family(
            self.trace[k as int],
        ) is Some) implies #[trigger] f(i) == g(i) by {
            if self.ends_stay(ttl, i, k) {
                assert forall|x: int| i < x < k + 1 implies !#[trigger] self.feeds(ttl, i, x) by {
                    if x == k && self.feeds(ttl, i, x) {
                        assert(self.family(self.trace[i]) == self.family(self.trace[k as int]));
                    }
                }
            }
            if self.ends_stay(ttl, i, k + 1) {
                assert forall|x: int| i < x < k implies !#[trigger] self.feeds(ttl, i, x) by {}
            }
        }
        assert(total_of(k + 1, g) == total_of(k, g) + g(k as int));
        if !self.is_hit(ttl, k as int) {
            assert forall|i: int| 0 <= i < k && i != -1 implies #[trigger] f(i) == g(i) by {
                if self.family(self.trace[k as int]) is Some {
                    assert(!self.feeds(ttl, i, k as int));
                }
            }
            total_changes(k, f, g, -1);
        }
        assert forall|j: int| #[trigger]
            self.feeds(ttl, j, k as int) && self.family(self.trace[k as int]) is Some implies
            total_of(k + 1, g) == total_of(k, f) - self.stay_charge(ttl, j, k) + g(k as int) by {
            assert forall|i: int| 0 <= i < k && i != j implies #[trigger] f(i) == g(i) by {
                if self.feeds(ttl, i, k as int) {
                    self.one_feeds(ttl, i, j, k as int);
                }
            }
            total_changes(k, f, g, j);
            assert(!self.ends_stay(ttl, j, k + 1)) by {
                assert(j < k < k + 1);
                assert(self.feeds(ttl, j, k as int));
            }
            assert(g(j) == 0);
        }
    }

    /// The storage so far, and what open stays will cost, is that of the stays that
    /// end.
    #[verifier::rlimit(60)]
    proof fn run_stores_by_stays(self, ttl: Option<Fixed>, upto: nat, bound: int)
        requires
            self.orderly(bound),
            ttl is Some ==> ttl->0.units >= 0,
            upto <= self.trace.len(),
            total_of(self.trace.len(), |i: int| self.longest_charge(i)) <= i64::MAX,
        ensures
            self.storage_is(
                ttl,
                self.static_run(ttl, upto).0,
                self.static_run(ttl, upto).1,
                upto,
            ),
        decreases upto,
    {
        if upto > 0 {
            let k = (upto - 1) as nat;
            self.run_stores_by_stays(ttl, k, bound);
            self.ready_keeps_storage(ttl, k, bound);
            self.run_is_exact(ttl, k, bound);
            self.ready_is_exact(ttl, k, bound);
            self.charges_move_on(ttl, k, bound);
            let (live, r) = self.static_ready(ttl, k);
            let (out, s) = self.static_run(ttl, upto);
            let e = self.trace[k as int];
            let now = e.time_hours;
            assert((out, s) == self.static_step(live, r, e));
            self.family_is_a_node(k as int, bound);
            self.opened_in_trace(ttl, k as int, bound);
            match self.family(e) {
                Some(id) => {
                    place_finds(live, id);
                    holds_is_listed(live, id);
                    self.open_is_hit(ttl, k as int, id, bound);
                    assert(listed(live, id) == self.open_at(ttl, id, k, now));
                    self.member_is_next(id, k as int);
                    assert(self.last_of(id, upto) == k);
                    assert forall|x: NodeId| x != id implies #[trigger] self.last_of(x, upto)
                        == self.last_of(x, k) by {}
                    assert(self.ends_stay(ttl, k as int, upto)) by {
                        assert forall|x: int| k < x < upto implies !#[trigger] self.feeds(
                            ttl,
                            k as int,
                            x,
                        ) by {}
                    }
                    let p = place(live, id);
                    if holds(live, id) {
                        let stay = Stay { last: now, ..live[p].1 };
                        let j = self.last_of(id, k);
                        self.last_is_last(id, k);
                        assert(self.feeds(ttl, j, k as int));
                        let c = choose|c: int| self.feeds(ttl, c, k as int);
                        self.one_feeds(ttl, j, c, k as int);
                        assert(self.opened_at(ttl, k as int) == self.opened_at(ttl, j));
                        assert(self.ends_stay(ttl, j, k)) by {
                            assert forall|x: int| j < x < k implies !#[trigger] self.feeds(
                                ttl,
                                j,
                                x,
                            ) by {
                                assert(self.family(self.trace[x]) != Some(id));
                            }
                        }
                        assert(self.stay_in_trace(live[p]));
                        assert(live[p].1.last == self.trace[self.last_of(
                            live[p].0,
                            k,
                        )].time_hours);
                        assert(self.entry_charge(ttl, live[p]) == self.stay_charge(ttl, j, k));
                        self.to_pay_of_update(ttl, live, p, (id, stay));
                        assert(out == live.update(p, (id, stay)));
                        assert(self.entry_charge(ttl, (id, stay)) == self.stay_charge(
                            ttl,
                            k as int,
                            upto,
                        ));
                        assert forall|m: int| 0 <= m < out.len() implies {
                            &&& self.stay_in_trace(#[trigger] out[m])
                            &&& out[m].1.opened == self.opened_at(
                                ttl,
                                self.last_of(out[m].0, upto),
                            )
                        } by {
                            assert(self.stay_in_trace(live[m]));
                            if m != p {
                                assert(live[m].0 != live[p].0);
                                assert(out[m] == live[m]);
                                assert(self.last_of(out[m].0, upto) == self.last_of(out[m].0, k));
                            }
                        }
                    } else {
                        let stay = Stay { opened: now, last: now };
                        assert(out == live.push((id, stay)));
                        assert(out.drop_last() =~= live);
                        assert(self.opened_at(ttl, k as int) == now);
                        assert(self.entry_charge(ttl, (id, stay)) == self.stay_charge(
                            ttl,
                            k as int,
                            upto,
                        ));
                        assert forall|m: int| 0 <= m < out.len() implies {
                            &&& self.stay_in_trace(#[trigger] out[m])
                            &&& out[m].1.opened == self.opened_at(
                                ttl,
                                self.last_of(out[m].0, upto),
                            )
                        } by {
                            if m < live.len() {
                                assert(self.stay_in_trace(live[m]));
                                assert(out[m] == live[m]);
                                assert(live[m].0 != id);
                                assert(self.last_of(out[m].0, upto) == self.last_of(out[m].0, k));
                            }
                        }
                    }
                },
                None => {
                    assert forall|m: int| 0 <= m < out.len() implies {
                        &&& self.stay_in_trace(#[trigger] out[m])
                        &&& out[m].1.opened == self.opened_at(ttl, self.last_of(out[m].0, upto))
                    } by {
                        assert(self.stay_in_trace(live[m]));
                    }
                },
            }
        }
    }

    /// Caching by an idle time pays storage for each stay of a prefix: from the
    /// request that wrote it, through all that read on from it, to the end of the
    /// idle time after the last of them, or of the trace.
    pub proof fn fixed_rule_stores_by_stays(self, ttl: Option<Fixed>, bound: int)
        requires
            self.orderly(bound),
            ttl is Some ==> ttl->0.units >= 0,
            total_of(self.trace.len(), |i: int| self.longest_charge(i)) <= i64::MAX,
        ensures
            self.report(Self::rule(ttl)).storage_cost.units == total_of(
                self.trace.len(),
                |i: int| self.stay_charge(ttl, i, self.trace.len()),
            ),
    {
        let n = self.trace.len();
        let (live, r) = self.static_run(ttl, n);
        self.run_stores_by_stays(ttl, n, bound);
        self.stays_in_range(ttl, n, bound);
        assert(live.take(live.len() as int) =~= live);
        assert forall|m: int| 0 <= m < live.len() implies self.stay_in_trace(
            #[trigger] live[m],
        ) by {}
        self.closing_is_exact(ttl, live, live.len(), r, bound);
    }
}

} // verus!
