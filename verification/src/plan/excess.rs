//! How much a set of cache points can count twice: no more than rounding, where
//! the children of a node are together no busier than the node.
use vstd::prelude::*;

use crate::fixed::Fixed;
use crate::number::Real;
use crate::plan::Ask;
use crate::total::{total_changes, total_of};
use crate::trie::rates::{faded, left_is_a_share, left_of};
use crate::trie::shares::sum_slack;
use crate::trie::NodeId;

verus! {

/// The sum of the values of `f` at `ids`.
pub open spec fn sum_at(ids: Seq<NodeId>, f: spec_fn(int) -> int) -> int
    decreases ids.len(),
{
    if ids.len() == 0 {
        0
    } else {
        sum_at(ids.drop_last(), f) + f(ids.last() as int)
    }
}

/// A sum depends on the values at its places alone.
proof fn sum_at_same(ids: Seq<NodeId>, f: spec_fn(int) -> int, g: spec_fn(int) -> int)
    requires
        forall|i: int| 0 <= i < ids.len() ==> f(#[trigger] ids[i] as int) == g(ids[i] as int),
    ensures
        sum_at(ids, f) == sum_at(ids, g),
    decreases ids.len(),
{
    if ids.len() > 0 {
        let rest = ids.drop_last();
        assert forall|i: int| 0 <= i < rest.len() implies f(#[trigger] rest[i] as int) == g(
            rest[i] as int,
        ) by {
            assert(rest[i] == ids[i]);
        }
        sum_at_same(rest, f, g);
        assert(f(ids[ids.len() - 1] as int) == g(ids[ids.len() - 1] as int));
    }
}

/// A sum over some places is no more than that over all.
proof fn sum_at_some(ids: Seq<NodeId>, n: nat, f: spec_fn(int) -> int)
    requires
        ids.no_duplicates(),
        forall|i: int| 0 <= i < ids.len() ==> (#[trigger] ids[i]) < n,
        forall|i: int| 0 <= i < n ==> 0 <= #[trigger] f(i),
    ensures
        sum_at(ids, f) <= total_of(n, f),
    decreases ids.len(),
{
    if ids.len() == 0 {
        total_is_positive(n, f);
    } else {
        let rest = ids.drop_last();
        let last = ids[ids.len() - 1];
        let g = |i: int|
            if i == last {
                0
            } else {
                f(i)
            };
        assert forall|i: int| 0 <= i < n && i != last implies #[trigger] f(i) == g(i) by {}
        total_changes(n, f, g, last as int);
        assert forall|i: int| 0 <= i < rest.len() implies f(#[trigger] rest[i] as int) == g(
            rest[i] as int,
        ) by {
            assert(rest[i] == ids[i]);
            assert(ids[i] != ids[ids.len() - 1]);
        }
        assert forall|i: int| 0 <= i < rest.len() implies (#[trigger] rest[i]) < n by {
            assert(rest[i] == ids[i]);
        }
        assert(rest.no_duplicates()) by {
            assert forall|i: int, j: int|
                0 <= i < rest.len() && 0 <= j < rest.len() && i != j implies rest[i] != rest[j] by {
                assert(ids[i] != ids[j]);
            }
        }
        assert forall|i: int| 0 <= i < n implies 0 <= #[trigger] g(i) by {
            assert(0 <= f(i));
        }
        sum_at_same(rest, f, g);
        sum_at_some(rest, n, g);
    }
}

proof fn total_is_positive(n: nat, f: spec_fn(int) -> int)
    requires
        forall|i: int| 0 <= i < n ==> 0 <= #[trigger] f(i),
    ensures
        0 <= total_of(n, f),
    decreases n,
{
    if n > 0 {
        total_is_positive((n - 1) as nat, f);
        assert(0 <= f(n - 1));
    }
}

impl Ask<Fixed> {
    /// How many nodes lie at or below `id`.
    pub open spec fn breadth(self, id: int) -> nat
        decreases self.room_below(id), 1int, 0nat,
    {
        1 + self.breadth_kids(id, self.trie.children_sorted(id))
    }

    /// How many nodes lie at or below `kids`, children of `id`.
    pub open spec fn breadth_kids(self, id: int, kids: Seq<NodeId>) -> nat
        decreases self.room_below(id), 0int, kids.len(),
    {
        if kids.len() == 0 {
            0
        } else {
            let before = self.breadth_kids(id, kids.drop_last());
            let kid = kids.last() as int;
            if self.trie.nodes[id].depth_blocks < self.trie.nodes[kid].depth_blocks {
                before + self.breadth(kid)
            } else {
                before
            }
        }
    }

    /// Whether the children of every node but the root are together no busier
    /// than the node, but for `slack`, and no rate is negative.
    pub open spec fn shared(self, slack: int, width: nat) -> bool {
        &&& self.trie.nodes.len() <= width
        &&& forall|id: int| #[trigger]
            self.trie.live(id) && id != 0 ==> {
                &&& self.trie.kids_rate(id, self.now, width) <= self.rate(id).units + slack
                &&& 0 <= self.rate(id).units
            }
    }

    /// The rate of a node, as a number.
    spec fn rate_at(self) -> spec_fn(int) -> int {
        |id: int| self.rate(id).units as int
    }

    /// The rates of the children of a node, one by one, are what they are over
    /// all slots.
    proof fn kids_add_up(self, id: int, slack: int, width: nat)
        requires
            self.trie.wf(),
            self.shared(slack, width),
            self.trie.live(id),
            id != 0,
        ensures
            sum_at(self.trie.children_sorted(id), self.rate_at()) <= self.rate(id).units + slack,
    {
        let kids = self.trie.children_sorted(id);
        let f = |x: int| self.trie.kid_rate(id, x, self.now);
        self.kids_are_distinct(id);
        assert forall|i: int| 0 <= i < kids.len() implies (#[trigger] kids[i]) < width && f(
            kids[i] as int,
        ) == (self.rate_at())(kids[i] as int) by {
            self.trie.sorted_child_hangs(id, i);
        }
        assert forall|x: int| 0 <= x < width implies 0 <= #[trigger] f(x) by {
            if self.trie.live(x) && x != 0 {
                assert(0 <= self.rate(x).units);
            }
        }
        sum_at_same(kids, f, self.rate_at());
        sum_at_some(kids, width, f);
        assert(self.trie.kids_rate(id, self.now, width) == total_of(width, f));
    }

    /// What a set covers at or below a node exceeds the rate of the node by the
    /// slack for each node there at most, and so does what it counts twice.
    #[verifier::rlimit(60)]
    proof fn cover_is_bounded(
        self,
        a: Set<NodeId>,
        id: int,
        slack: int,
        width: nat,
        longest: int,
        most: int,
    )
        requires
            self.trie.wf(),
            self.spread() >= 0,
            self.shared(slack, width),
            0 <= slack,
            self.trie.live(id),
            !a.contains(0),
            self.breadth(id) <= most,
            forall|x: int| #[trigger] self.trie.live(x) ==> 0 <= self.trie.tokens(x) <= longest,
        ensures
            id != 0 ==> self.tally(a, id).cover <= self.rate(id).units + slack * self.breadth(id),
            self.tally(a, id).excess <= self.tally(a, id).count * self.full(
                longest,
                slack * most,
            ),
        decreases self.room_below(id), 1int, 0nat,
    {
        let kids = self.trie.children_sorted(id);
        assert(kids =~= kids.take(kids.len() as int));
        self.kids_cover_is_bounded(a, id, kids, slack, width, longest, most);
        let below = self.tally_kids(a, id, kids);
        let more = self.breadth_kids(id, kids);
        let x = self.full(longest, slack * most);
        if id != 0 {
            self.kids_add_up(id, slack, width);
            assert(slack * (1 + more) == slack + slack * more) by (nonlinear_arith);
            assert(0 <= slack * more) by (nonlinear_arith)
                requires
                    0 <= slack,
            ;
            assert(below.cover <= self.rate(id).units + slack * self.breadth(id));
        }
        if a.contains(id as usize) {
            let over = below.cover - self.rate(id).units;
            let t = self.trie.tokens(id);
            assert(slack * self.breadth(id) <= slack * most) by (nonlinear_arith)
                requires
                    0 <= slack,
                    self.breadth(id) <= most,
            ;
            assert(self.excess_over(id, below.cover) <= x) by {
                reveal(Ask::<Fixed>::excess_over);
                if over > 0 {
                    self.full_adds(longest - t, t, over, 0);
                    self.full_is_positive(longest - t, over);
                    self.full_adds(longest, 0, slack * most - over, over);
                    self.full_is_positive(longest, slack * most - over);
                } else {
                    assert(0 <= slack * most) by (nonlinear_arith)
                        requires
                            0 <= slack,
                            0 <= most,
                    ;
                    self.full_is_positive(longest, slack * most);
                }
            }
            assert((below.count + 1) * x == below.count * x + x) by (nonlinear_arith);
        }
    }

    #[verifier::rlimit(60)]
    proof fn kids_cover_is_bounded(
        self,
        a: Set<NodeId>,
        id: int,
        kids: Seq<NodeId>,
        slack: int,
        width: nat,
        longest: int,
        most: int,
    )
        requires
            self.trie.wf(),
            self.spread() >= 0,
            self.shared(slack, width),
            0 <= slack,
            self.trie.live(id),
            !a.contains(0),
            kids.len() <= self.trie.children_sorted(id).len(),
            kids == self.trie.children_sorted(id).take(kids.len() as int),
            self.breadth_kids(id, kids) <= most,
            forall|x: int| #[trigger] self.trie.live(x) ==> 0 <= self.trie.tokens(x) <= longest,
        ensures
            self.tally_kids(a, id, kids).cover <= sum_at(kids, self.rate_at()) + slack
                * self.breadth_kids(id, kids),
            self.tally_kids(a, id, kids).excess <= self.tally_kids(a, id, kids).count * self.full(
                longest,
                slack * most,
            ),
        decreases self.room_below(id), 0int, kids.len(),
    {
        let x = self.full(longest, slack * most);
        if kids.len() == 0 {
            assert(slack * 0 == 0 && 0 * x == 0) by (nonlinear_arith);
        } else {
            let all = self.trie.children_sorted(id);
            let rest = kids.drop_last();
            let kid = kids.last() as int;
            assert(kids.last() == all[kids.len() - 1]);
            assert(rest =~= all.take(rest.len() as int));
            self.trie.sorted_child_hangs(id, kids.len() - 1);
            self.kids_cover_is_bounded(a, id, rest, slack, width, longest, most);
            self.cover_is_bounded(a, kid, slack, width, longest, most);
            let (m, n) = (self.breadth_kids(id, rest), self.breadth(kid));
            assert(slack * (m + n) == slack * m + slack * n) by (nonlinear_arith);
            let (c, d) = (self.tally_kids(a, id, rest).count, self.tally(a, kid).count);
            assert((c + d) * x == c * x + d * x) by (nonlinear_arith);
        }
    }
}

/// What a set of cache points counts twice is rounding: where the children of each
/// node are together no busier than the node but for `slack`, it is at most, for
/// each cache point, the savings on `slack` for each node of the trie.
pub proof fn excess_is_bounded(
    ask: Ask<Fixed>,
    a: Set<NodeId>,
    slack: int,
    width: nat,
    longest: int,
)
    requires
        ask.trie.wf(),
        ask.spread() >= 0,
        ask.shared(slack, width),
        0 <= slack,
        !a.contains(0),
        forall|x: int| #[trigger] ask.trie.live(x) ==> 0 <= ask.trie.tokens(x) <= longest,
    ensures
        ask.tally(a, 0).excess <= ask.tally(a, 0).count * ask.full(
            longest,
            slack * ask.breadth(0),
        ),
{
    ask.cover_is_bounded(a, 0, slack, width, longest, ask.breadth(0) as int);
}

/// The children of each node are so where the trie was built by requests.
pub proof fn observed_traffic_is_shared(
    ask: Ask<Fixed>,
    before: Fixed,
    slack: int,
    wide: int,
    cap: int,
    width: nat,
)
    requires
        ask.trie.wf(),
        ask.trie.tau_decay.units > 0,
        0 <= slack,
        0 <= cap,
        ask.trie.nodes.len() <= width,
        ask.trie.times_nest(before),
        ask.trie.rates_nest(before, wide, cap),
        ask.trie.sums_nest(slack, width),
        before.units <= ask.now.units,
    ensures
        ask.shared(slack + sum_slack(cap, width), width),
{
    assert forall|id: int| #[trigger] ask.trie.live(id) && id != 0 implies {
        &&& ask.trie.kids_rate(id, ask.now, width) <= ask.rate(id).units + slack + sum_slack(
            cap,
            width,
        )
        &&& 0 <= ask.rate(id).units
    } by {
        ask.trie.children_share_traffic(before, ask.now, id, slack, wide, cap, width);
        assert(ask.trie.node_rate_nests(id, before, wide, cap));
        let s = ask.trie.nodes[id].stats;
        left_is_a_share(s.t_last, ask.now, ask.trie.tau_decay);
        if s.samples.units != 0 {
            faded(s.lambda, left_of(s.t_last, ask.now, ask.trie.tau_decay));
        }
    }
}

} // verus!
