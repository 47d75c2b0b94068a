//! What a plan promises whatever its thresholds are.
use vstd::prelude::*;

use crate::fixed::Fixed;
use crate::number::Real;
use crate::plan::best::{fine, nets, split_is_best};
use crate::plan::laws::{plan_is_sane, top_ranked_is_top};
use crate::plan::{merged, top_ranked, Ask};
use crate::price::Regime;
use crate::trie::NodeId;

verus! {

/// Every placement of a plan clears its threshold: on the traffic that deeper
/// placements leave it, its savings exceed its cost by the lower factor where it
/// is cached already, and by the upper one where it is not; they exceed it in any
/// case, by the net that it reports. It is at the length of its prefix, long
/// enough to cache, and names the tier whose cost it was weighed at.
pub proof fn placements_clear_their_thresholds<R: Real>(ask: Ask<R>, i: int)
    requires
        ask.trie.wf(),
        ask.trie.sized(),
        0 <= i < ask.chosen().len(),
    ensures
        ({
            let p = ask.chosen()[i];
            let n = ask.trie.nodes[p.node as int];
            let tokens = (n.depth_blocks * ask.trie.block_tokens) as u64;
            let rate = n.stats.decayed_lambda(ask.now, ask.trie.tau_decay);
            let (cost, ttl) = ask.prices.cost_rate(tokens, n.stats, ask.now, ask.trie.tau_decay);
            let factor = if n.state is Cached {
                ask.theta_down
            } else {
                ask.theta_up
            };
            &&& p.node != 0
            &&& ask.trie.live(p.node as int)
            &&& p.tokens == tokens
            &&& tokens >= ask.prices.min_cacheable_tokens
            &&& p.ttl_hours == ttl
            &&& R::int_of(0).below(p.net_per_hour)
            &&& exists|covered: R|
                {
                    let own = #[trigger] rate.diff(covered).larger(R::int_of(0));
                    let saved = ask.prices.savings_rate(tokens, own);
                    &&& factor.prod(cost).below(saved)
                    &&& p.net_per_hour == saved.diff(cost)
                }
        }),
        ask.chosen().len() <= ask.prices.max_breakpoints,
        forall|j: int| 0 <= j < i ==> (#[trigger] ask.chosen()[j]).node != ask.chosen()[i].node,
{
    plan_is_sane(ask);
    let k = ask.prices.max_breakpoints as nat;
    let picks = ask.chosen();
    assert(ask.pays(picks, i, k));
    let j = choose|j: int| ask.rests_on(picks, i, k, j);
    let id = picks[i].node as int;
    assert(ask.trie.live(id));
    let base = ask.best_below(id, k)[j];
    let n = ask.trie.nodes[id];
    let rate = n.stats.decayed_lambda(ask.now, ask.trie.tau_decay);
    assert(rate.diff(base.covered).larger(R::int_of(0)) == rate.diff(base.covered).larger(
        R::int_of(0),
    ));
}

impl Ask<Fixed> {
    /// Whether a cache point at `id`, on all of its traffic, clears its threshold.
    pub open spec fn clears_alone(self, id: int) -> bool {
        let n = self.trie.nodes[id];
        let cost = self.cost(id).0.units as int;
        let factor = if n.state is Cached {
            self.theta_down.units as int
        } else {
            self.theta_up.units as int
        };
        let saved = self.prices.savings_rate(
            self.trie.tokens(id) as u64,
            n.stats.decayed_lambda(self.now, self.trie.tau_decay),
        ).units;
        &&& id != 0
        &&& self.trie.tokens(id) >= self.prices.min_cacheable_tokens
        &&& (factor * cost) / 1_000_000_000 < saved
        &&& cost < saved
    }

    /// Whether the members of `a` in the trie clear their thresholds alone, and
    /// none lies below another.
    pub open spec fn apart(self, a: Set<NodeId>) -> bool {
        forall|id: int| #[trigger]
            self.trie.live(id) && a.contains(id as usize) ==> {
                &&& self.clears_alone(id)
                &&& self.tally_kids(a, id, self.trie.children_sorted(id)).count == 0
            }
    }

    /// A set without a member below a node adds nothing there.
    proof fn nothing_is_added(self, a: Set<NodeId>, id: int, up: u64)
        requires
            self.trie.wf(),
            self.trie.live(id),
            self.tally(a, id).count == 0,
        ensures
            self.added(a, id, up) == 0,
        decreases self.room_below(id), 1int, 0nat,
    {
        let kids = self.trie.children_sorted(id);
        assert(kids =~= kids.take(kids.len() as int));
        self.no_kid_adds(a, id, kids, up);
    }

    proof fn no_kid_adds(self, a: Set<NodeId>, id: int, kids: Seq<NodeId>, up: u64)
        requires
            self.trie.wf(),
            self.trie.live(id),
            kids.len() <= self.trie.children_sorted(id).len(),
            kids == self.trie.children_sorted(id).take(kids.len() as int),
            self.tally_kids(a, id, kids).count == 0,
        ensures
            self.added_kids(a, id, kids, up) == 0,
        decreases self.room_below(id), 0int, kids.len(),
    {
        if kids.len() > 0 {
            let all = self.trie.children_sorted(id);
            let rest = kids.drop_last();
            let kid = kids.last() as int;
            assert(kids.last() == all[kids.len() - 1]);
            assert(rest =~= all.take(rest.len() as int));
            self.trie.sorted_child_hangs(id, kids.len() - 1);
            self.no_kid_adds(a, id, rest, up);
            self.nothing_is_added(a, kid, up);
        }
    }

    /// Some budget within the size of a set of members that lie apart has an entry
    /// worth what they add.
    #[verifier::rlimit(60)]
    proof fn solved_reaches_apart(
        self,
        a: Set<NodeId>,
        id: int,
        k: nat,
        up: u64,
        bound: int,
    ) -> (j: int)
        requires
            self.in_range(k, bound),
            self.apart(a),
            self.trie.live(id),
            up <= self.trie.tokens(id),
            self.tally(a, id).count <= k,
        ensures
            0 <= j <= self.tally(a, id).count,
            self.solved(id, k, up)[j].value.units >= self.added(a, id, up),
        decreases self.room_below(id), 1int, 0nat,
    {
        self.ranged(k, bound);
        self.ranged_at(id, k, bound);
        let kids = self.trie.children_sorted(id);
        let t = self.trie.tokens(id) as u64;
        assert(kids =~= kids.take(kids.len() as int));
        self.solved_kids_is_fair(id, kids, k, up, bound);
        if a.contains(id as usize) {
            assert(self.clears_alone(id));
            self.no_kid_adds(a, id, kids, t);
            self.solved_kids_is_fair(id, kids, k, t, bound);
            let base = self.solved_kids(id, kids, k, t)[0];
            assert(self.fair(base, 0, t, bound));
            assert(0 * bound == 0 && 2 * 0 * bound == 0);
            assert(base.value.units == 0 && base.covered.units == 0);
            self.topped_is_fair(id, base, 1, up, k, bound);
            self.node_sums(id, up, 0, k, bound);
            assert(self.rate(id).diff(base.covered).larger(Fixed::int_of(0)) == self.rate(id));
            let c = self.cost(id).0;
            let h = self.threshold(id);
            let s = self.savings(id, base);
            assert(h.prod(c).below(s)) by {
                let v = (h.units * c.units) / 1_000_000_000;
                assert(v < s.units);
            }
            assert(self.topped(id, base, up) is Some);
            assert(self.added_at(id, up) == self.gain(id, up).units) by {
                reveal(Ask::<Fixed>::added_at);
            }
            assert(self.solved(id, k, up)[1].value.units >= self.gain(id, up).units);
            1
        } else {
            let j = self.kids_reach_apart(a, id, kids, k, up, bound);
            assert(self.solved(id, k, up)[j].value.units >= self.solved_kids(
                id,
                kids,
                k,
                up,
            )[j].value.units);
            j
        }
    }

    #[verifier::rlimit(60)]
    proof fn kids_reach_apart(
        self,
        a: Set<NodeId>,
        id: int,
        kids: Seq<NodeId>,
        k: nat,
        up: u64,
        bound: int,
    ) -> (j: int)
        requires
            self.in_range(k, bound),
            self.apart(a),
            self.trie.live(id),
            up <= self.trie.tokens(id),
            kids.len() <= self.trie.children_sorted(id).len(),
            kids == self.trie.children_sorted(id).take(kids.len() as int),
            self.tally_kids(a, id, kids).count <= k,
        ensures
            0 <= j <= self.tally_kids(a, id, kids).count,
            self.solved_kids(id, kids, k, up)[j].value.units >= self.added_kids(a, id, kids, up),
        decreases self.room_below(id), 0int, kids.len(),
    {
        self.ranged(k, bound);
        if kids.len() == 0 {
            0
        } else {
            let all = self.trie.children_sorted(id);
            let rest = kids.drop_last();
            let kid = kids.last() as int;
            assert(kids.last() == all[kids.len() - 1]);
            assert(rest =~= all.take(rest.len() as int));
            self.trie.sorted_child_hangs(id, kids.len() - 1);
            self.trie.child_is_longer(id, kid);
            let i = self.kids_reach_apart(a, id, rest, k, up, bound);
            let j = self.solved_reaches_apart(a, kid, k, up, bound);
            self.solved_kids_is_fair(id, rest, k, up, bound);
            self.solved_is_fair(kid, k, up, bound);
            let (acc, ch) = (self.solved_kids(id, rest, k, up), self.solved(kid, k, up));
            assert(self.solved_kids(id, kids, k, up) == merged(acc, ch));
            assert(self.fair(acc[i], i, up, bound));
            assert(self.fair(ch[j], j, up, bound));
            self.and_is_fair(acc[i], ch[j], i, j, up, k, bound);
            split_is_best(acc, ch, i + j, (i + j + 1) as nat);
            assert(ch[i + j - i] == ch[j]);
            i + j
        }
    }
}

/// The plan nets no less than cache points that lie apart. Whatever the
/// thresholds, no set of as many nodes as a request may have breakpoints, each of
/// which clears its threshold on its own traffic and none of which lies below
/// another, nets more than the plan, but for the rounding of each savings rate. So
/// a plan is empty only where no node clears its threshold.
pub proof fn plan_is_no_worse_than_apart(ask: Ask<Fixed>, a: Set<NodeId>, bound: int)
    requires
        ask.in_range(ask.prices.max_breakpoints as nat, bound),
        ask.prices.regime() != Regime::ShapeOnly,
        ask.apart(a),
        a.finite(),
        a.len() <= ask.prices.max_breakpoints,
    ensures
        ({
            let k = ask.prices.max_breakpoints as int;
            fine(ask.tally(a, 0).net) <= fine(nets(ask.chosen())) + ask.tally(a, 0).excess
                + ask.slop(2 * k)
        }),
{
    let k = ask.prices.max_breakpoints as nat;
    let t = ask.tally(a, 0);
    let c = t.count as int;
    let entries = ask.solved(0, k, 0);
    ask.ranged(k, bound);
    ask.ranged_at(0, k, bound);
    ask.count_is_fair(a, 0);
    assert(ask.members(a, 0).subset_of(a));
    vstd::set_lib::lemma_len_subset(ask.members(a, 0), a);
    ask.solved_is_fair(0, k, 0, bound);
    ask.tally_is_added(a, 0, k, 0, bound);
    let j = ask.solved_reaches_apart(a, 0, k, 0, bound);
    top_ranked_is_top(entries, entries.len());
    let best = entries[top_ranked(entries, entries.len())];
    assert(entries[j].value.rank() <= best.value.rank());
    assert(ask.fair(best, top_ranked(entries, entries.len()), 0, bound));
    ask.full_adds(0, 0, best.covered.units as int, 0);
    ask.full_adds(0, 0, t.cover, 0);
    let n = best.picks.len() as int;
    ask.slop_adds(c, k - c);
    ask.slop_adds(n, k - n);
    ask.slop_adds(k as int, k as int);
    if k == 0 {
        assert(best.picks =~= ask.chosen());
    }
}

} // verus!
