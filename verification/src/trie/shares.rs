//! Why the traffic of a node's children adds up to no more than its own: every
//! request through one of them passes it.
use vstd::prelude::*;

use crate::fixed::laws::exp_of_negative_is_a_share;
use crate::fixed::{Fixed, ONE};
use crate::number::Real;
use crate::stats::Traffic;
use crate::total::{
    total_changes, total_is_ordered, total_is_scaled, total_of, total_of_nothing,
};
use crate::trie::rates::{
    decays_in_two_steps, faded, first_rate_is_positive, left_is_a_share, left_of, pass_is_sound,
    sound_rate,
};
use crate::trie::{NodeId, TrieModel};

verus! {

/// A rate as of its last request, zero before the first.
pub open spec fn own_rate(s: Traffic<Fixed>) -> int {
    if s.samples.units == 0 {
        0
    } else {
        s.lambda.units as int
    }
}

/// By how much a request may widen the slack of a sum over `width` slots, for
/// rates up to `cap`.
pub open spec fn sum_slack(cap: int, width: nat) -> int {
    (width * (ONE + 11 * cap)) / (ONE as int) + 2
}

/// Whether a child was passed no later than its parent.
spec fn follows(child: Traffic<Fixed>, parent: Traffic<Fixed>) -> bool {
    child.samples.units == 0 || {
        &&& parent.samples.units != 0
        &&& child.t_last.units <= parent.t_last.units
    }
}

impl TrieModel<Fixed> {
    /// The rate of `id` at `t` where it is a child of `p`, else zero.
    pub open spec fn kid_rate(self, p: int, id: int, t: Fixed) -> int {
        if self.live(id) && self.nodes[id].parent == Some(p as usize) {
            self.nodes[id].stats.decayed_lambda(t, self.tau_decay).units as int
        } else {
            0
        }
    }

    /// The rates of the children of `p` at `t`, added up over `width` slots.
    pub open spec fn kids_rate(self, p: int, t: Fixed, width: nat) -> int {
        total_of(width, |id: int| self.kid_rate(p, id, t))
    }

    /// Whether the children of `p` are together no busier than `p`, as of its
    /// last request, but for `slack`.
    pub open spec fn sum_nests(self, p: int, slack: int, width: nat) -> bool {
        let s = self.nodes[p].stats;
        self.kids_rate(p, s.t_last, width) <= own_rate(s) + slack
    }

    /// No node is less busy, by more than `slack`, than its children together.
    /// (The root itself is never counted.)
    pub open spec fn sums_nest(self, slack: int, width: nat) -> bool {
        forall|p: int| #[trigger] self.live(p) && p != 0 ==> self.sum_nests(p, slack, width)
    }

    /// What is left of the rate of a child is near what is left of what was left
    /// when its parent was last passed.
    proof fn kid_fades(self, p: int, id: int, was: Traffic<Fixed>, now: Fixed, cap: int)
        requires
            self.tau_decay.units > 0,
            0 <= cap,
            0 <= was.t_last.units <= now.units,
            self.live(id) && self.nodes[id].parent == Some(p as usize) ==> sound_rate(
                self.nodes[id].stats,
                cap,
            ) && follows(self.nodes[id].stats, was),
        ensures
            ONE * self.kid_rate(p, id, now) <= left_of(was.t_last, now, self.tau_decay).units
                * self.kid_rate(p, id, was.t_last) + (ONE + 11 * cap),
            self.kid_rate(p, id, now) >= 0,
    {
        let tau = self.tau_decay;
        let child = self.nodes[id].stats;
        let y = left_of(was.t_last, now, tau).units as int;
        left_is_a_share(was.t_last, now, tau);
        if self.live(id) && self.nodes[id].parent == Some(p as usize) && child.samples.units != 0 {
            let (s, t) = (child.t_last, was.t_last);
            left_is_a_share(s, t, tau);
            left_is_a_share(s, now, tau);
            decays_in_two_steps(s, t, now, tau);
            faded(child.lambda, left_of(s, t, tau));
            faded(child.lambda, left_of(s, now, tau));
            let one = ONE as int;
            let c = child.lambda.units as int;
            let (x1, x) = (left_of(s, t, tau).units as int, left_of(s, now, tau).units as int);
            let a = child.lambda.prod(left_of(s, t, tau)).units as int;
            let r = child.lambda.prod(left_of(s, now, tau)).units as int;
            let m = (x1 * y) / one;
            assert(x <= m + 11);
            assert(one * m <= x1 * y);
            assert(one * (one * r) <= c * (x1 * y) + one * (c * 11)) by (nonlinear_arith)
                requires
                    one * r <= c * x,
                    x <= m + 11,
                    one * m <= x1 * y,
                    0 <= c,
                    0 < one,
            ;
            assert(c * (x1 * y) <= one * ((a + 1) * y)) by (nonlinear_arith)
                requires
                    c * x1 <= one * a + one,
                    0 <= y,
                    0 < one,
            ;
            assert((a + 1) * y == y * a + y) by (nonlinear_arith);
            assert(one * (one * r) <= one * (y * a + y + c * 11));
            assert(one * r <= y * a + y + c * 11);
        } else {
            assert(y * self.kid_rate(p, id, was.t_last) == 0);
        }
    }

    /// At a later time the children of a node are still together no busier.
    proof fn kids_fade(
        self,
        p: int,
        was: Traffic<Fixed>,
        now: Fixed,
        slack: int,
        cap: int,
        width: nat,
    )
        requires
            self.tau_decay.units > 0,
            0 <= cap,
            0 <= slack,
            sound_rate(was, cap),
            was.t_last.units <= now.units,
            forall|id: int| #[trigger]
                self.live(id) && self.nodes[id].parent == Some(p as usize) ==> sound_rate(
                    self.nodes[id].stats,
                    cap,
                ) && follows(self.nodes[id].stats, was),
            self.kids_rate(p, was.t_last, width) <= own_rate(was) + slack,
        ensures
            self.kids_rate(p, now, width) <= was.decayed_lambda(now, self.tau_decay).units + slack
                + sum_slack(cap, width),
    {
        let tau = self.tau_decay;
        let one = ONE as int;
        let y = left_of(was.t_last, now, tau);
        left_is_a_share(was.t_last, now, tau);
        let f = |id: int| self.kid_rate(p, id, now);
        let g = |id: int| self.kid_rate(p, id, was.t_last);
        let more = one + 11 * cap;
        assert forall|i: int| 0 <= i < width implies one * (#[trigger] f(i)) <= y.units * g(i)
            + more by {
            self.kid_fades(p, i, was, now, cap);
        }
        total_is_scaled(width, f, g, one, y.units as int, more);
        let (a, b) = (total_of(width, f), total_of(width, g));
        let l = own_rate(was);
        assert(y.units * b <= y.units * l + one * slack) by (nonlinear_arith)
            requires
                b <= l + slack,
                0 <= y.units <= one,
                0 <= slack,
        ;
        let w = was.decayed_lambda(now, tau).units as int;
        assert(y.units * l < one * w + one) by {
            if was.samples.units != 0 {
                faded(was.lambda, y);
                assert(y.units * l == was.lambda.units * y.units) by (nonlinear_arith)
                    requires
                        l == was.lambda.units,
                ;
            } else {
                assert(y.units * 0 == 0);
            }
        }
        let z = width * more;
        assert(z < one * (z / one) + one);
        assert(one * a < one * (w + 1 + slack + z / one + 1));
    }

    /// What holds once a request has passed down to `cur`: of the nodes above,
    /// with more slack; further down nothing has changed.
    spec fn summed(
        self,
        cur: NodeId,
        p: int,
        now: Fixed,
        slack: int,
        cap: int,
        width: nat,
    ) -> bool {
        let d = self.nodes[cur as int].depth_blocks;
        let n = self.nodes[p];
        &&& p != cur && n.depth_blocks <= d ==> self.sum_nests(
            p,
            slack + sum_slack(cap, width),
            width,
        )
        &&& n.depth_blocks > d ==> {
            &&& self.sum_nests(p, slack, width)
            &&& sound_rate(n.stats, cap)
            &&& n.stats.t_last.units <= now.units
        }
        &&& n.depth_blocks > d + 1 ==> follows(n.stats, self.nodes[n.parent->0 as int].stats)
    }

    /// The children of `cur` are as they were, and so was `cur` before the request
    /// that passes it now.
    spec fn sum_passing(
        self,
        cur: NodeId,
        was: Traffic<Fixed>,
        now: Fixed,
        slack: int,
        cap: int,
        width: nat,
    ) -> bool {
        &&& sound_rate(was, cap)
        &&& was.t_last.units <= now.units
        &&& self.nodes[cur as int].stats == was.observed(now, self.tau_decay)
        &&& forall|id: int| #[trigger]
            self.live(id) && self.nodes[id].parent == Some(cur) ==> follows(
                self.nodes[id].stats,
                was,
            )
        &&& self.kids_rate(cur as int, was.t_last, width) <= own_rate(was) + slack
    }

    /// A request through a node and one of its children keeps their sum in order.
    proof fn pass_keeps_sum(
        self,
        u: Self,
        cur: NodeId,
        next: NodeId,
        now: Fixed,
        slack: int,
        cap: int,
        width: nat,
    )
        requires
            self.tau_decay.units > 0,
            u.tau_decay == self.tau_decay,
            0 <= now.units,
            0 <= cap,
            0 <= slack,
            cap + Fixed::int_of(1).quot(self.tau_decay).units <= i64::MAX,
            exists|was: Traffic<Fixed>| self.sum_passing(cur, was, now, slack, cap, width),
            forall|id: int| #[trigger]
                self.live(id) && self.nodes[id].parent == Some(cur) ==> sound_rate(
                    self.nodes[id].stats,
                    cap,
                ),
            u.live(next as int),
            u.nodes[next as int].parent == Some(cur),
            next < width,
            exists|s: Traffic<Fixed>|
                {
                    &&& u.nodes[next as int].stats == #[trigger] s.observed(now, self.tau_decay)
                    &&& sound_rate(s, cap)
                    &&& if self.live(next as int) && self.nodes[next as int].parent == Some(cur) {
                        s == self.nodes[next as int].stats
                    } else {
                        s.samples.units == 0
                    }
                },
            u.nodes[cur as int].stats == self.nodes[cur as int].stats,
            forall|id: int|
                0 <= id < width && id != next ==> #[trigger] u.kid_rate(cur as int, id, now)
                    == self.kid_rate(cur as int, id, now),
        ensures
            u.sum_nests(cur as int, slack + sum_slack(cap, width), width),
    {
        let tau = self.tau_decay;
        let q = Fixed::int_of(1).quot(tau).units as int;
        first_rate_is_positive(tau);
        let was = choose|was: Traffic<Fixed>| self.sum_passing(cur, was, now, slack, cap, width);
        let s = choose|s: Traffic<Fixed>|
            {
                &&& u.nodes[next as int].stats == #[trigger] s.observed(now, tau)
                &&& sound_rate(s, cap)
                &&& if self.live(next as int) && self.nodes[next as int].parent == Some(cur) {
                    s == self.nodes[next as int].stats
                } else {
                    s.samples.units == 0
                }
            };
        self.kids_fade(cur as int, was, now, slack, cap, width);
        pass_is_sound(was, now, tau, cap);
        pass_is_sound(s, now, tau, cap);
        let f = |id: int| self.kid_rate(cur as int, id, now);
        let g = |id: int| u.kid_rate(cur as int, id, now);
        assert forall|i: int| 0 <= i < width && i != next implies #[trigger] f(i) == g(i) by {
            assert(u.kid_rate(cur as int, i, now) == self.kid_rate(cur as int, i, now));
        }
        total_changes(width, f, g, next as int);
        // The child gains one request's worth.
        let after = u.nodes[next as int].stats;
        let all = left_of(now, now, tau);
        assert(all.units == ONE) by {
            assert(now.diff(now).larger(Fixed::int_of(0)).negated().units == 0);
            assert((0 * ONE) / (tau.units as int) == 0) by {
                vstd::arithmetic::div_mod::lemma_div_of0(tau.units as int);
            }
            exp_of_negative_is_a_share(Fixed { units: 0 });
        }
        assert((after.lambda.units * ONE) / (ONE as int) == after.lambda.units);
        assert(g(next as int) == after.lambda.units);
        left_is_a_share(s.t_last, now, tau);
        if s.samples.units != 0 {
            faded(s.lambda, left_of(s.t_last, now, tau));
        }
        assert(g(next as int) <= f(next as int) + q);
        // And so does its parent.
        left_is_a_share(was.t_last, now, tau);
        if was.samples.units != 0 {
            faded(was.lambda, left_of(was.t_last, now, tau));
        }
        let mine = self.nodes[cur as int].stats;
        assert(own_rate(mine) == was.decayed_lambda(now, tau).units + q);
    }
}

impl TrieModel<Fixed> {
    /// The rates of children add up to the same where none of them changes.
    proof fn same_kids(self, u: Self, p: int, t: Fixed, width: nat)
        requires
            u.tau_decay == self.tau_decay,
            forall|id: int|
                0 <= id < width ==> #[trigger] u.kid_rate(p, id, t) == self.kid_rate(p, id, t),
        ensures
            u.kids_rate(p, t, width) == self.kids_rate(p, t, width),
    {
        let f = |id: int| self.kid_rate(p, id, t);
        let g = |id: int| u.kid_rate(p, id, t);
        assert forall|i: int| 0 <= i < width && i != -1 implies #[trigger] f(i) == g(i) by {
            assert(u.kid_rate(p, i, t) == self.kid_rate(p, i, t));
        }
        total_changes(width, f, g, -1);
    }

    /// A request that ends at a node keeps the sum over its children in order.
    proof fn end_keeps_sum(self, cur: NodeId, now: Fixed, slack: int, cap: int, width: nat)
        requires
            self.tau_decay.units > 0,
            0 <= now.units,
            0 <= cap,
            0 <= slack,
            cap + Fixed::int_of(1).quot(self.tau_decay).units <= i64::MAX,
            exists|was: Traffic<Fixed>| self.sum_passing(cur, was, now, slack, cap, width),
            forall|id: int| #[trigger]
                self.live(id) && self.nodes[id].parent == Some(cur) ==> sound_rate(
                    self.nodes[id].stats,
                    cap,
                ),
        ensures
            self.sum_nests(cur as int, slack + sum_slack(cap, width), width),
    {
        let tau = self.tau_decay;
        first_rate_is_positive(tau);
        let was = choose|was: Traffic<Fixed>| self.sum_passing(cur, was, now, slack, cap, width);
        self.kids_fade(cur as int, was, now, slack, cap, width);
        pass_is_sound(was, now, tau, cap);
        left_is_a_share(was.t_last, now, tau);
        if was.samples.units != 0 {
            faded(was.lambda, left_of(was.t_last, now, tau));
        }
    }

    #[verifier::rlimit(60)]
    #[verifier::spinoff_prover]
    proof fn sums_nest_below(
        self,
        cur: NodeId,
        blocks: Seq<u64>,
        now: Fixed,
        slack: int,
        cap: int,
        width: nat,
    )
        requires
            self.tau_decay.units > 0,
            0 <= now.units,
            0 <= cap,
            0 <= slack,
            cap + Fixed::int_of(1).quot(self.tau_decay).units <= i64::MAX,
            self.wf(),
            self.live(cur as int),
            forall|p: int| #[trigger]
                self.live(p) && p != 0 ==> self.summed(cur, p, now, slack, cap, width),
            cur == 0 || exists|was: Traffic<Fixed>|
                self.sum_passing(cur, was, now, slack, cap, width),
            self.nodes[cur as int].depth_blocks + blocks.len() <= u64::MAX,
            self.observed_path(cur, blocks, now).0.nodes.len() <= width,
        ensures
            self.observed_path(cur, blocks, now).0.sums_nest(
                slack + sum_slack(cap, width),
                width,
            ),
        decreases blocks.len(),
    {
        let tau = self.tau_decay;
        let more = slack + sum_slack(cap, width);
        assert(sum_slack(cap, width) >= 0) by {
            assert(width * (ONE + 11 * cap) >= 0) by (nonlinear_arith)
                requires
                    cap >= 0,
                    ONE == 1_000_000_000,
            ;
        }
        assert forall|id: int| #[trigger] self.live(id) && self.nodes[id].parent == Some(
            cur,
        ) implies sound_rate(self.nodes[id].stats, cap) by {
            if id != 0 {
                assert(self.hangs(id));
                assert(self.summed(cur, id, now, slack, cap, width));
            }
        }
        if blocks.len() > 0 && self.step(cur, blocks[0]) is Some {
            let b = blocks[0];
            let rest = blocks.drop_first();
            let (s, next) = self.step(cur, b)->0;
            let u = s.touched(next, now);
            if self.nodes[cur as int].children.contains_key(b) {
                assert(self.leads(cur as int, b));
                assert(self.hangs(next as int));
                assert(self.summed(cur, next as int, now, slack, cap, width));
            } else {
                self.grown_is_wf(cur, b);
                assert(s.hangs(next as int));
                assert(!self.live(next as int));
            }
            s.with_node_is_wf(next as int, u.nodes[next as int]);
            assert(u.hangs(next as int));
            u.walk_fits(next, rest, now);
            u.walk_in_range(next, rest, now);
            let was = s.nodes[next as int].stats;
            assert(sound_rate(was, cap) && was.t_last.units <= now.units);
            assert forall|id: int| id != next implies #[trigger] u.live(id) == self.live(id) && (
            u.live(id) ==> u.nodes[id].stats == self.nodes[id].stats && u.nodes[id].parent
                == self.nodes[id].parent && u.nodes[id].depth_blocks
                == self.nodes[id].depth_blocks) by {}
            assert forall|p: int, t: Fixed|
                0 <= p <= usize::MAX && p != cur implies #[trigger] u.kids_rate(p, t, width)
                == self.kids_rate(p, t, width) by {
                assert forall|id: int| 0 <= id < width implies #[trigger] u.kid_rate(p, id, t)
                    == self.kid_rate(p, id, t) by {
                    assert(id != next ==> u.live(id) == self.live(id));
                }
                self.same_kids(u, p, t, width);
            }
            if cur != 0 {
                assert forall|id: int| 0 <= id < width && id != next implies #[trigger] u.kid_rate(
                    cur as int,
                    id,
                    now,
                ) == self.kid_rate(cur as int, id, now) by {
                    assert(u.live(id) == self.live(id));
                }
                assert(u.nodes[next as int].stats == was.observed(now, tau));
                self.pass_keeps_sum(u, cur, next, now, slack, cap, width);
            }
            assert forall|p: int| #[trigger] u.live(p) && p != 0 implies u.summed(
                next,
                p,
                now,
                slack,
                cap,
                width,
            ) by {
                if p != next {
                    assert(self.live(p));
                    assert(self.summed(cur, p, now, slack, cap, width));
                    assert(self.hangs(p));
                    assert(u.hangs(p));
                    if p != cur {
                        let t = u.nodes[p].stats.t_last;
                        assert(u.kids_rate(p, t, width) == self.kids_rate(p, t, width));
                    }
                    let up = self.nodes[p].parent->0 as int;
                    assert(self.live(up));
                    assert(u.live(up) == self.live(up) || up == next);
                }
            }
            assert(u.sum_passing(next, was, now, slack, cap, width)) by {
                assert forall|id: int| #[trigger] u.live(id) && u.nodes[id].parent == Some(
                    next,
                ) implies follows(u.nodes[id].stats, was) by {
                    assert(u.hangs(id));
                    if id != next && id != 0 {
                        assert(self.live(id));
                        assert(self.hangs(id));
                        assert(self.live(next as int));
                        assert(self.summed(cur, id, now, slack, cap, width));
                    }
                }
                if self.nodes[cur as int].children.contains_key(b) {
                    assert(u.kids_rate(next as int, was.t_last, width) == self.kids_rate(
                        next as int,
                        was.t_last,
                        width,
                    ));
                } else {
                    let f = |id: int| u.kid_rate(next as int, id, was.t_last);
                    assert forall|id: int| 0 <= id < width implies #[trigger] f(id) == 0 by {
                        if u.live(id) && u.nodes[id].parent == Some(next) {
                            assert(u.hangs(id));
                            assert(self.live(id));
                            assert(self.hangs(id));
                        }
                    }
                    total_of_nothing(width, f);
                }
            }
            u.sums_nest_below(next, rest, now, slack, cap, width);
        } else {
            if cur != 0 {
                self.end_keeps_sum(cur, now, slack, cap, width);
            }
            assert forall|p: int| #[trigger] self.live(p) && p != 0 implies self.sum_nests(
                p,
                more,
                width,
            ) by {
                assert(self.summed(cur, p, now, slack, cap, width));
            }
        }
    }

    /// The children of a node stay together no busier than the node, whatever is
    /// observed, as time goes on. A request widens the slack by what a step of
    /// decay may round off for each slot.
    pub proof fn sums_stay_nested(
        self,
        blocks: Seq<u64>,
        before: Fixed,
        now: Fixed,
        slack: int,
        wide: int,
        cap: int,
        width: nat,
    )
        requires
            self.tau_decay.units > 0,
            0 <= slack,
            0 <= cap,
            0 <= now.units,
            cap + Fixed::int_of(1).quot(self.tau_decay).units <= i64::MAX,
            self.wf(),
            self.times_nest(before),
            self.rates_nest(before, wide, cap),
            self.sums_nest(slack, width),
            before.units <= now.units,
            blocks.len() <= u64::MAX,
            self.observed_path(0, blocks, now).0.nodes.len() <= width,
        ensures
            self.observed_path(0, blocks, now).0.sums_nest(slack + sum_slack(cap, width), width),
    {
        assert forall|p: int| #[trigger] self.live(p) && p != 0 implies self.summed(
            0,
            p,
            now,
            slack,
            cap,
            width,
        ) by {
            assert(self.node_rate_nests(p, before, wide, cap));
            assert(self.node_time_nests(p, before));
            assert(self.hangs(p));
            assert(self.sum_nests(p, slack, width));
        }
        self.sums_nest_below(0, blocks, now, slack, cap, width);
    }

    /// So they do through garbage collection.
    pub proof fn gc_keeps_sums_nested(
        self,
        before: Fixed,
        now: Fixed,
        min_lambda: Fixed,
        min_idle: Fixed,
        slack: int,
        wide: int,
        cap: int,
        width: nat,
    )
        requires
            self.wf(),
            self.tau_decay.units > 0,
            self.rates_nest(before, wide, cap),
            self.sums_nest(slack, width),
        ensures
            self.collected(now, min_lambda, min_idle).sums_nest(slack, width),
    {
        self.gc_is_exact(now, min_lambda, min_idle);
        let t = self.collected(now, min_lambda, min_idle);
        assert forall|p: int| #[trigger] t.live(p) && p != 0 implies t.sum_nests(
            p,
            slack,
            width,
        ) by {
            assert(self.thinned_node(t.nodes[p], p, now, min_lambda, min_idle));
            assert(self.live(p));
            assert(self.sum_nests(p, slack, width));
            let at = self.nodes[p].stats.t_last;
            let f = |id: int| t.kid_rate(p, id, at);
            let g = |id: int| self.kid_rate(p, id, at);
            assert forall|id: int| 0 <= id < width implies #[trigger] f(id) <= g(id) by {
                if 0 <= id < t.nodes.len() {
                    assert(self.thinned_node(t.nodes[id], id, now, min_lambda, min_idle));
                }
                if self.live(id) {
                    assert(self.node_rate_nests(id, before, wide, cap));
                    let s = self.nodes[id].stats;
                    left_is_a_share(s.t_last, at, self.tau_decay);
                    if s.samples.units != 0 {
                        faded(s.lambda, left_of(s.t_last, at, self.tau_decay));
                    }
                }
            }
            total_is_ordered(width, f, g);
        }
    }

    /// The invariant in use: at any later time, the rates of the children of a
    /// node add up to no more than its own, but for the slack and one more step of
    /// decay.
    pub proof fn children_share_traffic(
        self,
        before: Fixed,
        now: Fixed,
        id: int,
        slack: int,
        wide: int,
        cap: int,
        width: nat,
    )
        requires
            self.tau_decay.units > 0,
            0 <= slack,
            0 <= cap,
            self.wf(),
            self.times_nest(before),
            self.rates_nest(before, wide, cap),
            self.sums_nest(slack, width),
            before.units <= now.units,
            self.live(id),
            id != 0,
        ensures
            self.kids_rate(id, now, width) <= self.nodes[id].stats.decayed_lambda(
                now,
                self.tau_decay,
            ).units + slack + sum_slack(cap, width),
    {
        assert(self.node_rate_nests(id, before, wide, cap));
        assert(self.node_time_nests(id, before));
        assert(self.sum_nests(id, slack, width));
        let was = self.nodes[id].stats;
        assert forall|x: int| #[trigger] self.live(x) && self.nodes[x].parent == Some(
            id as usize,
        ) implies sound_rate(self.nodes[x].stats, cap) && follows(self.nodes[x].stats, was) by {
            assert(self.node_rate_nests(x, before, wide, cap));
        }
        self.kids_fade(id, was, now, slack, cap, width);
    }
}

} // verus!
