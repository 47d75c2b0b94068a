//! Why traffic falls with depth: every request through a child passes its parent.
//!
//! Counts nest as they are ([`TrieModel::counts_nest`]), and so do the times of
//! the last request ([`TrieModel::times_nest`]). A rate decays from request to
//! request, and each step rounds. So rates nest up to a slack, which each request
//! widens by what one step may round off.
use vstd::prelude::*;

use crate::fixed::decay::{exp_down_is_a_share, exp_in_two_steps, fade_vanishes};
use crate::fixed::laws::exp_of_negative_is_a_share;
use crate::fixed::{exp_down, Fixed, ONE};
use crate::number::Real;
use crate::stats::Traffic;
use crate::trie::{NodeId, TrieModel};

verus! {

impl<R: Real> TrieModel<R> {
    /// No node was passed after `now`, nor after the node it hangs from. (The
    /// root itself is never counted.)
    pub open spec fn times_nest(self, now: R) -> bool {
        forall|id: int| #[trigger] self.live(id) && id != 0 ==> self.node_time_nests(id, now)
    }

    pub open spec fn node_time_nests(self, id: int, now: R) -> bool {
        let t = self.nodes[id].stats.t_last;
        &&& t.rank() <= now.rank()
        &&& match self.nodes[id].parent {
            Some(p) => p == 0 || t.rank() <= self.nodes[p as int].stats.t_last.rank(),
            None => true,
        }
    }

    /// The times of the last request stay nested whatever is observed, as time
    /// goes on.
    pub proof fn times_stay_nested(self, blocks: Seq<u64>, before: R, now: R)
        requires
            self.wf(),
            self.times_nest(before),
            before.rank() <= now.rank(),
            blocks.len() <= u64::MAX,
        ensures
            self.observed_path(0, blocks, now).0.times_nest(now),
    {
        self.walk_fits(0, blocks, now);
        assert forall|id: int| #[trigger] self.live(id) && id != 0 implies self.node_time_nests(
            id,
            now,
        ) by {
            assert(self.node_time_nests(id, before));
        }
        self.times_nest_below(0, blocks, now);
    }

    proof fn times_nest_below(self, cur: NodeId, blocks: Seq<u64>, now: R)
        requires
            self.wf(),
            self.times_nest(now),
            self.live(cur as int),
            cur == 0 || self.nodes[cur as int].stats.t_last == now,
            self.nodes[cur as int].depth_blocks + blocks.len() <= u64::MAX,
        ensures
            self.observed_path(cur, blocks, now).0.times_nest(now),
        decreases blocks.len(),
    {
        self.walk_fits(cur, blocks, now);
        if blocks.len() > 0 {
            let b = blocks[0];
            if let Some((s, next)) = self.step(cur, b) {
                let u = s.touched(next, now);
                self.step_is_wf(cur, blocks, now);
                if self.nodes[cur as int].children.contains_key(b) {
                    assert(self.live(next as int));
                } else {
                    self.grown_is_wf(cur, b);
                }
                s.with_node_is_wf(next as int, u.nodes[next as int]);
                assert forall|id: int| #[trigger] u.live(id) && id
                    != 0 implies u.node_time_nests(id, now) by {
                    if id != next {
                        assert(self.live(id));
                        assert(self.node_time_nests(id, now));
                        assert(self.hangs(id));
                    }
                }
                u.times_nest_below(next, blocks.drop_first(), now);
            }
        }
    }

    /// The times of the last request stay nested through garbage collection.
    pub proof fn gc_keeps_times_nested(self, before: R, now: R, min_lambda: R, min_idle: R)
        requires
            self.wf(),
            self.times_nest(before),
        ensures
            self.collected(now, min_lambda, min_idle).times_nest(before),
    {
        self.gc_is_exact(now, min_lambda, min_idle);
        let t = self.collected(now, min_lambda, min_idle);
        assert forall|id: int| #[trigger] t.live(id) && id != 0 implies t.node_time_nests(
            id,
            before,
        ) by {
            assert(self.thinned_node(t.nodes[id], id, now, min_lambda, min_idle));
            assert(self.live(id));
            assert(self.node_time_nests(id, before));
            assert(self.hangs(id));
            let p = self.nodes[id].parent->0 as int;
            assert(self.thinned_node(t.nodes[p], p, now, min_lambda, min_idle));
        }
    }
}

/// How much of a rate is left after the time from `from` to `to`.
pub open spec fn left_of(from: Fixed, to: Fixed, tau: Fixed) -> Fixed {
    to.diff(from).larger(Fixed::int_of(0)).negated().quot(tau).exp_of()
}

/// A share of a rate is left.
pub proof fn left_is_a_share(from: Fixed, to: Fixed, tau: Fixed)
    requires
        tau.units > 0,
    ensures
        0 <= left_of(from, to, tau).units <= ONE,
{
    let x = to.diff(from).larger(Fixed::int_of(0)).negated();
    let n = x.units * ONE;
    let d = tau.units as int;
    assert(n / d <= 0) by (nonlinear_arith)
        requires
            n <= 0,
            d > 0,
    ;
    exp_of_negative_is_a_share(x.quot(tau));
}

/// What is left, as a power of how much a billionth of the decay time leaves.
proof fn left_by_steps(from: Fixed, to: Fixed, tau: Fixed)
    requires
        tau.units > 0,
        0 <= to.units - from.units <= i64::MAX,
    ensures
        ({
            let steps = -((-((to.units - from.units) * ONE)) / (tau.units as int));
            &&& 0 <= steps
            &&& steps <= i64::MAX + 1 ==> left_of(from, to, tau).units == exp_down(steps as nat)
            &&& steps >= 0x4000_0000_0000_0000 ==> left_of(from, to, tau).units == 0
        }),
{
    let x = to.diff(from).larger(Fixed::int_of(0)).negated();
    assert(x.units == from.units - to.units);
    let n = -((to.units - from.units) * ONE);
    assert(n == x.units * ONE);
    let d = tau.units as int;
    assert(n / d <= 0) by (nonlinear_arith)
        requires
            n <= 0,
            d > 0,
    ;
    let steps = -(n / d);
    let arg = x.quot(tau);
    exp_down_is_a_share(steps as nat);
    if arg.units == 0 {
        exp_of_negative_is_a_share(arg);
    } else {
        assert(0 <= exp_down((-(arg.units as int)) as nat) <= ONE) by {
            exp_down_is_a_share((-(arg.units as int)) as nat);
        }
        if steps >= 0x4000_0000_0000_0000 {
            fade_vanishes((-(arg.units as int)) as nat);
        }
    }
}

/// What is left after two spans is near what is left of what was left after the
/// first.
pub proof fn decays_in_two_steps(s: Fixed, t: Fixed, u: Fixed, tau: Fixed)
    requires
        tau.units > 0,
        s.units <= t.units <= u.units,
        u.units - s.units <= i64::MAX,
    ensures
        left_of(s, u, tau).units <= (left_of(s, t, tau).units * left_of(t, u, tau).units) / (
        ONE as int) + 11,
{
    left_by_steps(s, u, tau);
    left_by_steps(s, t, tau);
    left_by_steps(t, u, tau);
    left_is_a_share(s, t, tau);
    left_is_a_share(t, u, tau);
    let d = tau.units as int;
    let (x, y, z) = (
        -((t.units - s.units) * ONE),
        -((u.units - t.units) * ONE),
        -((u.units - s.units) * ONE),
    );
    assert(z == x + y);
    let (a, b, c) = (-(x / d), -(y / d), -(z / d));
    vstd::arithmetic::div_mod::lemma_fundamental_div_mod(x, d);
    vstd::arithmetic::div_mod::lemma_fundamental_div_mod(y, d);
    vstd::arithmetic::div_mod::lemma_fundamental_div_mod(z, d);
    vstd::arithmetic::div_mod::lemma_mod_bound(x, d);
    vstd::arithmetic::div_mod::lemma_mod_bound(y, d);
    vstd::arithmetic::div_mod::lemma_mod_bound(z, d);
    assert(c == a + b || c + 1 == a + b) by (nonlinear_arith)
        requires
            x == d * -a + x % d,
            y == d * -b + y % d,
            z == d * -c + z % d,
            z == x + y,
            0 <= x % d < d,
            0 <= y % d < d,
            0 <= z % d < d,
    ;
    if c >= 0x4000_0000_0000_0000 {
        let p = left_of(s, t, tau).units * left_of(t, u, tau).units;
        assert(p >= 0) by (nonlinear_arith)
            requires
                p == left_of(s, t, tau).units * left_of(t, u, tau).units,
                left_of(s, t, tau).units >= 0,
                left_of(t, u, tau).units >= 0,
        ;
        assert(p / (ONE as int) >= 0);
    } else {
        exp_in_two_steps(a as nat, b as nat, c as nat);
    }
}

/// By how much a request may widen the slack, for rates up to `cap`.
pub open spec fn step_slack(cap: int) -> int {
    (11 * cap) / (ONE as int) + 3
}

/// Whether no count, time or rate is negative, and the rate is at most `cap`.
pub open spec fn sound_rate(s: Traffic<Fixed>, cap: int) -> bool {
    &&& 0 <= s.samples.units
    &&& 0 <= s.t_last.units
    &&& s.samples.units == 0 || 0 <= s.lambda.units <= cap
}

/// Whether a child is no busier than its parent: it was passed no later, and its
/// rate, as of the parent's last request, is higher by `slack` at most.
pub open spec fn rate_nests(
    child: Traffic<Fixed>,
    parent: Traffic<Fixed>,
    tau: Fixed,
    slack: int,
) -> bool {
    child.samples.units == 0 || {
        &&& parent.samples.units != 0
        &&& child.t_last.units <= parent.t_last.units
        &&& child.lambda.prod(left_of(child.t_last, parent.t_last, tau)).units
            <= parent.lambda.units + slack
    }
}

/// A share of a rate is no more than the rate.
pub(crate) proof fn faded(a: Fixed, d: Fixed)
    requires
        0 <= a.units,
        0 <= d.units <= ONE,
    ensures
        a.prod(d).units == (a.units * d.units) / (ONE as int),
        0 <= a.prod(d).units <= a.units,
        ONE * a.prod(d).units <= a.units * d.units < ONE * a.prod(d).units + ONE,
{
    let p = a.units * d.units;
    assert(0 <= p <= a.units * ONE) by (nonlinear_arith)
        requires
            p == a.units * d.units,
            0 <= a.units,
            0 <= d.units <= ONE,
    ;
    assert(0 <= p / (ONE as int) <= a.units);
}

/// What is left of a child's rate is near what is left of what was left when the
/// parent was last passed.
proof fn fades_alike(
    child: Traffic<Fixed>,
    parent: Traffic<Fixed>,
    now: Fixed,
    tau: Fixed,
    slack: int,
    cap: int,
)
    requires
        tau.units > 0,
        sound_rate(child, cap),
        sound_rate(parent, cap),
        0 <= slack,
        rate_nests(child, parent, tau, slack),
        child.samples.units != 0,
        parent.t_last.units <= now.units,
    ensures
        child.lambda.prod(left_of(child.t_last, now, tau)).units <= parent.lambda.prod(
            left_of(parent.t_last, now, tau),
        ).units + slack + step_slack(cap),
{
    let e: int = 11;
    let (s, t) = (child.t_last, parent.t_last);
    let (d1, d2, d) = (left_of(s, t, tau), left_of(t, now, tau), left_of(s, now, tau));
    left_is_a_share(s, t, tau);
    left_is_a_share(t, now, tau);
    left_is_a_share(s, now, tau);
    let c = child.lambda.units as int;
    let p = parent.lambda.units as int;
    let one = ONE as int;
    let (x1, x2) = (d1.units as int, d2.units as int);
    let x = d.units as int;
    faded(child.lambda, d1);
    faded(parent.lambda, d2);
    faded(child.lambda, d);
    let a = child.lambda.prod(d1).units as int;
    let b = parent.lambda.prod(d2).units as int;
    let r = child.lambda.prod(d).units as int;
    let m = (x1 * x2) / one;
    decays_in_two_steps(s, t, now, tau);
    assert(x <= m + e);
    assert(one * m <= x1 * x2);
    // one * one * r <= one * c * x <= c * (x1 * x2) + one * c * e
    assert(one * (one * r) <= c * (x1 * x2) + one * (c * e)) by (nonlinear_arith)
        requires
            one * r <= c * x,
            x <= m + e,
            one * m <= x1 * x2,
            0 <= c,
            0 < one,
    ;
    // c * x1 <= one * (a + 1), a <= p + slack
    assert(c * (x1 * x2) <= one * ((p + slack + 1) * x2)) by (nonlinear_arith)
        requires
            c * x1 <= one * a + one,
            a <= p + slack,
            0 <= x2,
            0 < one,
    ;
    assert((p + slack + 1) * x2 <= p * x2 + one * (slack + 1)) by (nonlinear_arith)
        requires
            0 <= slack,
            0 <= x2 <= one,
    ;
    assert(p * x2 <= one * b + one);
    assert(one * (one * r) <= one * (one * b + one + one * (slack + 1) + c * e));
    assert(one * r <= one * b + one + one * (slack + 1) + c * e);
    assert(c * e <= cap * e) by (nonlinear_arith)
        requires
            c <= cap,
            0 <= e,
    ;
    let q = (cap * e) / one;
    assert(cap * e < one * q + one);
}

/// A first request gives a rate that is not negative.
pub proof fn first_rate_is_positive(tau: Fixed)
    requires
        tau.units > 0,
    ensures
        Fixed::int_of(1).quot(tau).units >= 0,
{
    vstd::arithmetic::div_mod::lemma_div_pos_is_pos(ONE * ONE, tau.units as int);
}

/// A request keeps a rate sound.
pub(crate) proof fn pass_is_sound(s: Traffic<Fixed>, now: Fixed, tau: Fixed, cap: int)
    requires
        tau.units > 0,
        0 <= cap,
        0 <= now.units,
        sound_rate(s, cap),
    ensures
        sound_rate(s.observed(now, tau), cap + Fixed::int_of(1).quot(tau).units),
        s.observed(now, tau).samples.units > 0,
{
    first_rate_is_positive(tau);
    if s.samples.units != 0 {
        let d = left_of(s.t_last, now, tau);
        left_is_a_share(s.t_last, now, tau);
        faded(s.lambda, d);
        faded(s.samples, d);
    }
}

/// A request through both keeps rates nested.
proof fn both_pass(
    child: Traffic<Fixed>,
    parent: Traffic<Fixed>,
    now: Fixed,
    tau: Fixed,
    slack: int,
    cap: int,
)
    requires
        tau.units > 0,
        0 <= cap,
        sound_rate(child, cap),
        sound_rate(parent, cap),
        0 <= slack,
        rate_nests(child, parent, tau, slack),
        0 <= now.units,
        parent.samples.units == 0 || parent.t_last.units <= now.units,
    ensures
        rate_nests(
            child.observed(now, tau),
            parent.observed(now, tau),
            tau,
            slack + step_slack(cap),
        ),
{
    let c = child.observed(now, tau);
    let p = parent.observed(now, tau);
    pass_is_sound(child, now, tau, cap);
    pass_is_sound(parent, now, tau, cap);
    first_rate_is_positive(tau);
    left_is_a_share(now, now, tau);
    faded(c.lambda, left_of(now, now, tau));
    if parent.samples.units != 0 {
        left_is_a_share(parent.t_last, now, tau);
        faded(parent.lambda, left_of(parent.t_last, now, tau));
        if child.samples.units != 0 {
            fades_alike(child, parent, now, tau, slack, cap);
        }
    }
}

/// A request through the parent alone keeps rates nested.
proof fn parent_passes(
    child: Traffic<Fixed>,
    parent: Traffic<Fixed>,
    now: Fixed,
    tau: Fixed,
    slack: int,
    cap: int,
)
    requires
        tau.units > 0,
        0 <= cap,
        sound_rate(child, cap),
        sound_rate(parent, cap),
        0 <= slack,
        rate_nests(child, parent, tau, slack),
        0 <= now.units,
        parent.samples.units == 0 || parent.t_last.units <= now.units,
    ensures
        rate_nests(child, parent.observed(now, tau), tau, slack + step_slack(cap)),
{
    pass_is_sound(parent, now, tau, cap);
    first_rate_is_positive(tau);
    if child.samples.units != 0 {
        left_is_a_share(parent.t_last, now, tau);
        faded(parent.lambda, left_of(parent.t_last, now, tau));
        left_is_a_share(child.t_last, now, tau);
        faded(child.lambda, left_of(child.t_last, now, tau));
        fades_alike(child, parent, now, tau, slack, cap);
    }
}

impl TrieModel<Fixed> {
    /// No node is busier by more than `slack` than the one it hangs from, none was
    /// passed after `now`, and no rate is higher than `cap`. (The root itself is
    /// never counted.)
    pub open spec fn rates_nest(self, now: Fixed, slack: int, cap: int) -> bool {
        forall|id: int| #[trigger] self.live(id) ==> self.node_rate_nests(id, now, slack, cap)
    }

    pub open spec fn node_rate_nests(self, id: int, now: Fixed, slack: int, cap: int) -> bool {
        let s = self.nodes[id].stats;
        &&& sound_rate(s, cap)
        &&& s.samples.units == 0 || s.t_last.units <= now.units
        &&& match self.nodes[id].parent {
            Some(p) => p == 0 || rate_nests(s, self.nodes[p as int].stats, self.tau_decay, slack),
            None => true,
        }
    }

    /// Rates stay nested whatever is observed, as time goes on. A request widens
    /// the slack by what one step of decay may round off, and raises no rate by
    /// more than one request's worth.
    pub proof fn rates_stay_nested(
        self,
        blocks: Seq<u64>,
        before: Fixed,
        now: Fixed,
        slack: int,
        cap: int,
    )
        requires
            self.tau_decay.units > 0,
            0 <= slack,
            0 <= cap,
            0 <= now.units,
            self.wf(),
            self.rates_nest(before, slack, cap),
            before.units <= now.units,
            blocks.len() <= u64::MAX,
        ensures
            self.observed_path(0, blocks, now).0.rates_nest(
                now,
                slack + step_slack(cap),
                cap + Fixed::int_of(1).quot(self.tau_decay).units,
            ),
    {
        self.walk_fits(0, blocks, now);
        first_rate_is_positive(self.tau_decay);
        assert forall|id: int| #[trigger] self.live(id) implies self.reached(
            0,
            id,
            now,
            slack,
            cap,
        ) by {
            assert(self.node_rate_nests(id, before, slack, cap));
        }
        self.rates_nest_below(0, blocks, now, slack, cap);
    }

    /// What holds of `id` once a request has passed down to `cur`: further down,
    /// nothing has changed.
    spec fn reached(self, cur: NodeId, id: int, now: Fixed, slack: int, cap: int) -> bool {
        let d = self.nodes[cur as int].depth_blocks;
        let one = Fixed::int_of(1).quot(self.tau_decay).units;
        &&& self.node_rate_nests(id, now, slack + step_slack(cap), cap + one)
        &&& self.nodes[id].depth_blocks > d ==> sound_rate(self.nodes[id].stats, cap)
        &&& self.nodes[id].depth_blocks > d + 1 ==> self.node_rate_nests(id, now, slack, cap)
    }

    /// The children of `cur` nest in what `cur` was before the request that
    /// passes it now.
    spec fn passing(
        self,
        cur: NodeId,
        was: Traffic<Fixed>,
        now: Fixed,
        slack: int,
        cap: int,
    ) -> bool {
        &&& sound_rate(was, cap)
        &&& was.samples.units == 0 || was.t_last.units <= now.units
        &&& self.nodes[cur as int].stats == was.observed(now, self.tau_decay)
        &&& forall|id: int| #[trigger]
            self.live(id) && self.nodes[id].parent == Some(cur) ==> rate_nests(
                self.nodes[id].stats,
                was,
                self.tau_decay,
                slack,
            )
    }

    #[verifier::rlimit(60)]
    #[verifier::spinoff_prover]
    proof fn rates_nest_below(
        self,
        cur: NodeId,
        blocks: Seq<u64>,
        now: Fixed,
        slack: int,
        cap: int,
    )
        requires
            self.tau_decay.units > 0,
            0 <= slack,
            0 <= cap,
            0 <= now.units,
            self.wf(),
            self.live(cur as int),
            forall|id: int| #[trigger]
                self.live(id) ==> self.reached(cur, id, now, slack, cap),
            cur == 0 || exists|was: Traffic<Fixed>| self.passing(cur, was, now, slack, cap),
            self.nodes[cur as int].depth_blocks + blocks.len() <= u64::MAX,
        ensures
            self.observed_path(cur, blocks, now).0.rates_nest(
                now,
                slack + step_slack(cap),
                cap + Fixed::int_of(1).quot(self.tau_decay).units,
            ),
        decreases blocks.len(),
    {
        self.walk_fits(cur, blocks, now);
        first_rate_is_positive(self.tau_decay);
        assert(self.rates_nest(
            now,
            slack + step_slack(cap),
            cap + Fixed::int_of(1).quot(self.tau_decay).units,
        )) by {
            assert forall|id: int| #[trigger] self.live(id) implies self.node_rate_nests(
                id,
                now,
                slack + step_slack(cap),
                cap + Fixed::int_of(1).quot(self.tau_decay).units,
            ) by {
                assert(self.reached(cur, id, now, slack, cap));
            }
        }
        if blocks.len() > 0 {
            let b = blocks[0];
            let rest = blocks.drop_first();
            let tau = self.tau_decay;
            if let Some((s, next)) = self.step(cur, b) {
                let u = s.touched(next, now);
                self.step_is_wf(cur, blocks, now);
                if self.nodes[cur as int].children.contains_key(b) {
                    assert(self.leads(cur as int, b));
                    assert(self.live(next as int));
                    assert(self.hangs(next as int));
                    assert(self.reached(cur, next as int, now, slack, cap));
                } else {
                    self.grown_is_wf(cur, b);
                }
                s.with_node_is_wf(next as int, u.nodes[next as int]);
                let was = s.nodes[next as int].stats;
                assert(sound_rate(was, cap));
                pass_is_sound(was, now, tau, cap);
                assert forall|id: int| #[trigger] u.live(id) implies u.reached(
                    next,
                    id,
                    now,
                    slack,
                    cap,
                ) by {
                    if id == next {
                        if cur != 0 {
                            let up = choose|w: Traffic<Fixed>|
                                self.passing(cur, w, now, slack, cap);
                            both_pass(was, up, now, tau, slack, cap);
                        }
                    } else {
                        assert(self.live(id));
                        assert(self.reached(cur, id, now, slack, cap));
                        if id != 0 {
                            assert(self.hangs(id));
                            if u.nodes[id].parent == Some(next) {
                                assert(self.live(next as int));
                                parent_passes(
                                    self.nodes[id].stats,
                                    was,
                                    now,
                                    tau,
                                    slack,
                                    cap,
                                );
                            }
                        }
                    }
                }
                assert(u.passing(next, was, now, slack, cap)) by {
                    assert forall|id: int| #[trigger] u.live(id) && u.nodes[id].parent == Some(
                        next,
                    ) implies rate_nests(u.nodes[id].stats, was, tau, slack) by {
                        if id == next {
                            assert(u.hangs(id));
                        } else {
                            assert(self.live(id));
                            assert(self.reached(cur, id, now, slack, cap));
                            assert(self.hangs(id));
                            assert(self.live(next as int));
                        }
                    }
                }
                u.rates_nest_below(next, rest, now, slack, cap);
            }
        }
    }

    /// What nests, nests with more slack.
    pub proof fn more_slack(self, now: Fixed, slack: int, cap: int, more: int, top: int)
        requires
            self.rates_nest(now, slack, cap),
            slack <= more,
            cap <= top,
        ensures
            self.rates_nest(now, more, top),
    {
        assert forall|id: int| #[trigger] self.live(id) implies self.node_rate_nests(
            id,
            now,
            more,
            top,
        ) by {
            assert(self.node_rate_nests(id, now, slack, cap));
        }
    }

    /// Rates stay nested through garbage collection.
    pub proof fn gc_keeps_rates_nested(
        self,
        before: Fixed,
        now: Fixed,
        min_lambda: Fixed,
        min_idle: Fixed,
        slack: int,
        cap: int,
    )
        requires
            self.wf(),
            self.rates_nest(before, slack, cap),
        ensures
            self.collected(now, min_lambda, min_idle).rates_nest(before, slack, cap),
    {
        self.gc_is_exact(now, min_lambda, min_idle);
        let t = self.collected(now, min_lambda, min_idle);
        assert forall|id: int| #[trigger] t.live(id) implies t.node_rate_nests(
            id,
            before,
            slack,
            cap,
        ) by {
            assert(self.thinned_node(t.nodes[id], id, now, min_lambda, min_idle));
            assert(self.live(id));
            assert(self.node_rate_nests(id, before, slack, cap));
            if id != 0 {
                assert(self.hangs(id));
                let p = self.nodes[id].parent->0 as int;
                assert(self.thinned_node(t.nodes[p], p, now, min_lambda, min_idle));
            }
        }
    }

    /// The invariant in use: at any later time, no node has a higher rate than
    /// the one it hangs from, but for the slack and one more step of decay.
    pub proof fn rate_falls_with_depth(
        self,
        before: Fixed,
        now: Fixed,
        id: int,
        slack: int,
        cap: int,
    )
        requires
            self.tau_decay.units > 0,
            0 <= slack,
            0 <= cap,
            0 <= now.units,
            self.wf(),
            self.rates_nest(before, slack, cap),
            before.units <= now.units,
            self.live(id),
            id != 0,
            self.nodes[id].parent != Some(0usize),
        ensures
            ({
                let p = self.nodes[id].parent->0 as int;
                self.nodes[id].stats.decayed_lambda(now, self.tau_decay).units
                    <= self.nodes[p].stats.decayed_lambda(now, self.tau_decay).units + slack
                    + step_slack(cap)
            }),
    {
        assert(self.hangs(id));
        let p = self.nodes[id].parent->0 as int;
        assert(self.node_rate_nests(id, before, slack, cap));
        assert(self.node_rate_nests(p, before, slack, cap));
        let child = self.nodes[id].stats;
        let parent = self.nodes[p].stats;
        if child.samples.units != 0 {
            fades_alike(child, parent, now, self.tau_decay, slack, cap);
        } else if parent.samples.units != 0 {
            left_is_a_share(parent.t_last, now, self.tau_decay);
            faded(parent.lambda, left_of(parent.t_last, now, self.tau_decay));
        }
    }
}

} // verus!
