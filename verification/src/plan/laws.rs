//! What holds of every plan.
use vstd::prelude::*;

use crate::fixed::Fixed;
use crate::number::Real;
use crate::order::{ascending_keys, ascending_keys_are_the_keys};
use crate::plan::{best_split, merged, top_ranked, Ask, Best, Placement};
use crate::price::{Prices, Regime};
use crate::stats::Traffic;
use crate::trie::{NodeId, TrieModel};

verus! {

impl<R: Real> TrieModel<R> {
    /// The ancestor of `x` at the depth `d`; `x` itself where it lies no
    /// deeper.
    pub open spec fn ancestor(self, x: int, d: int) -> int
        decreases self.nodes[x].depth_blocks,
    {
        if self.nodes[x].depth_blocks <= d {
            x
        } else {
            match self.nodes[x].parent {
                Some(p) if self.nodes[p as int].depth_blocks < self.nodes[x].depth_blocks =>
                    self.ancestor(p as int, d),
                _ => x,
            }
        }
    }

    /// The ancestor one level up hangs the one below it.
    pub(crate) proof fn ancestors_hang(self, x: int, d: int)
        requires
            self.wf(),
            self.live(x),
            0 <= d < self.nodes[x].depth_blocks,
        ensures
            self.live(self.ancestor(x, d + 1)),
            self.nodes[self.ancestor(x, d + 1)].depth_blocks == d + 1,
            self.nodes[self.ancestor(x, d + 1)].parent == Some(self.ancestor(x, d) as usize),
        decreases self.nodes[x].depth_blocks,
    {
        assert(self.hangs(x));
        let p = self.nodes[x].parent->0 as int;
        if self.nodes[x].depth_blocks > d + 1 {
            self.ancestors_hang(p, d);
        } else {
            assert(self.ancestor(p, d) == p);
        }
    }
}

impl<R: Real> Ask<R> {
    /// What a placement promises: it names a live prefix that is long enough to
    /// cache, at its own length and cheapest tier, and rests on the placements
    /// below it.
    pub open spec fn pays(self, picks: Seq<Placement<R>>, i: int, k: nat) -> bool {
        let p = picks[i];
        let id = p.node as int;
        &&& id != 0
        &&& self.trie.live(id)
        &&& p.tokens == self.trie.tokens(id)
        &&& p.tokens >= self.prices.min_cacheable_tokens
        &&& p.ttl_hours == self.cost(id).1
        &&& R::int_of(0).below(p.net_per_hour)
        &&& exists|j: int| self.rests_on(picks, i, k, j)
    }

    /// The best placements below one at `id`, for each budget.
    pub open spec fn best_below(self, id: int, k: nat) -> Seq<Best<R>> {
        self.solved_kids(id, self.trie.children_sorted(id), k, self.trie.tokens(id) as u64)
    }

    /// Exclusive coverage: the placement `i` counts only the traffic that the
    /// best placements below it, for the budget `j`, do not cover. These stand
    /// right before it in the plan. On that traffic its savings exceed the
    /// hysteresis threshold, and its cost by the net it reports.
    pub open spec fn rests_on(self, picks: Seq<Placement<R>>, i: int, k: nat, j: int) -> bool {
        let id = picks[i].node as int;
        let base = self.best_below(id, k)[j];
        let n = base.picks.len();
        &&& 0 <= j < k
        &&& n <= i
        &&& picks.subrange(i - n, i) == base.picks
        &&& picks[i].net_per_hour == self.savings(id, base).diff(self.cost(id).0)
        &&& self.threshold(id).prod(self.cost(id).0).below(self.savings(id, base))
    }

    /// At most `kk` placements, each of which pays, at different nodes.
    pub open spec fn sane(self, picks: Seq<Placement<R>>, kk: int, k: nat) -> bool {
        &&& picks.len() <= kk
        &&& forall|i: int| #![trigger picks[i]] 0 <= i < picks.len() ==> self.pays(picks, i, k)
        &&& forall|i: int, j: int|
            0 <= i < j < picks.len() ==> (#[trigger] picks[i]).node != (#[trigger] picks[j]).node
    }

    /// Whether the node of a placement lies at or below `id`.
    pub(crate) open(crate) spec fn at_or_below(self, p: Placement<R>, id: int) -> bool {
        let d = self.trie.nodes[id].depth_blocks;
        &&& self.trie.nodes[p.node as int].depth_blocks >= d
        &&& self.trie.ancestor(p.node as int, d as int) == id
    }

    /// Whether the node of a placement lies at or below one of `kids`, children
    /// of `id`.
    pub(crate) open(crate) spec fn below_kids(self, p: Placement<R>, id: int, kids: Seq<NodeId>) -> bool {
        let d = self.trie.nodes[id].depth_blocks;
        &&& self.trie.nodes[p.node as int].depth_blocks > d
        &&& kids.contains(self.trie.ancestor(p.node as int, d + 1) as usize)
    }

    pub(crate) open(crate) spec fn sane_in_subtree(self, e: Best<R>, kk: int, k: nat, id: int) -> bool {
        &&& self.sane(e.picks, kk, k)
        &&& forall|i: int| 0 <= i < e.picks.len() ==> self.at_or_below(#[trigger] e.picks[i], id)
    }

    pub(crate) open(crate) spec fn sane_in_kids(self, e: Best<R>, kk: int, k: nat, id: int, kids: Seq<NodeId>) -> bool {
        &&& self.sane(e.picks, kk, k)
        &&& forall|i: int|
            0 <= i < e.picks.len() ==> self.below_kids(#[trigger] e.picks[i], id, kids)
    }

    /// The children of a node, each once.
    pub(crate) proof fn kids_are_distinct(self, id: int)
        requires
            self.trie.wf(),
            self.trie.live(id),
        ensures
            self.trie.children_sorted(id).no_duplicates(),
    {
        let kids = self.trie.nodes[id].children;
        let edges = ascending_keys(kids.dom());
        ascending_keys_are_the_keys(kids.dom());
        let list = self.trie.children_sorted(id);
        assert forall|i: int, j: int| 0 <= i < list.len() && 0 <= j < list.len() && i != j implies
            list[i] != list[j] by {
            assert(edges.contains(edges[i]) && edges.contains(edges[j]));
            assert(kids.contains_key(edges[i]) && kids.contains_key(edges[j]));
            assert(self.trie.leads(id, edges[i]));
            assert(self.trie.leads(id, edges[j]));
        }
    }

    /// A placement that pays in a plan pays in any plan that holds the part of
    /// it up to there.
    proof fn pays_in_more(
        self,
        few: Seq<Placement<R>>,
        i: int,
        many: Seq<Placement<R>>,
        x: int,
        k: nat,
    )
        requires
            0 <= i < few.len(),
            i <= x < many.len(),
            self.pays(few, i, k),
            forall|y: int| 0 <= y <= i ==> #[trigger] few[y] == many[x - i + y],
        ensures
            self.pays(many, x, k),
    {
        let j = choose|j: int| self.rests_on(few, i, k, j);
        let id = few[i].node as int;
        assert(few[i] == many[x - i + i]);
        let base = self.best_below(id, k)[j];
        let n = base.picks.len();
        let part = many.subrange(x - n, x);
        let same = few.subrange(i - n, i);
        assert forall|y: int| 0 <= y < n implies #[trigger] part[y] == same[y] by {
            assert(few[i - n + y] == many[x - i + (i - n + y)]);
        }
        assert(part =~= same);
        assert(self.rests_on(many, x, k, j));
    }

    /// Placements of two disjoint sets of subtrees are sane together.
    proof fn and_is_sane(
        self,
        a: Best<R>,
        b: Best<R>,
        i: int,
        j: int,
        k: nat,
        id: int,
        kids: Seq<NodeId>,
        kid: NodeId,
    )
        requires
            self.trie.wf(),
            self.trie.live(id),
            self.trie.live(kid as int),
            self.trie.nodes[kid as int].depth_blocks == self.trie.nodes[id].depth_blocks + 1,
            self.sane_in_kids(a, i, k, id, kids),
            self.sane_in_subtree(b, j, k, kid as int),
            !kids.contains(kid),
        ensures
            self.sane_in_kids(a.and(b), i + j, k, id, kids.push(kid)),
    {
        let e = a.and(b);
        let all = kids.push(kid);
        assert forall|x: int| #![trigger e.picks[x]] 0 <= x < e.picks.len() implies self.pays(
            e.picks,
            x,
            k,
        ) && self.below_kids(e.picks[x], id, all) by {
            if x < a.picks.len() {
                assert(e.picks[x] == a.picks[x]);
                self.pays_in_more(a.picks, x, e.picks, x, k);
                let c = self.trie.ancestor(
                    a.picks[x].node as int,
                    self.trie.nodes[id].depth_blocks + 1,
                ) as usize;
                assert(kids.contains(c));
                let y = choose|y: int| 0 <= y < kids.len() && kids[y] == c;
                assert(all[y] == c);
            } else {
                let y = x - a.picks.len();
                assert(e.picks[x] == b.picks[y]);
                self.pays_in_more(b.picks, y, e.picks, x, k);
                assert(all[kids.len() as int] == kid);
            }
        }
        assert forall|x: int, y: int| 0 <= x < y < e.picks.len() implies (
        #[trigger] e.picks[x]).node != (#[trigger] e.picks[y]).node by {
            if y < a.picks.len() {
                assert(e.picks[x] == a.picks[x] && e.picks[y] == a.picks[y]);
            } else {
                assert(e.picks[y] == b.picks[y - a.picks.len()]);
                assert(self.at_or_below(e.picks[y], kid as int));
                if x < a.picks.len() {
                    assert(e.picks[x] == a.picks[x]);
                    assert(self.below_kids(e.picks[x], id, kids));
                } else {
                    assert(e.picks[x] == b.picks[x - a.picks.len()]);
                }
            }
        }
    }

    /// Fewer children hold less.
    proof fn more_kids(self, e: Best<R>, kk: int, k: nat, id: int, kids: Seq<NodeId>, kid: NodeId)
        requires
            self.sane_in_kids(e, kk, k, id, kids),
        ensures
            self.sane_in_kids(e, kk, k, id, kids.push(kid)),
    {
        let all = kids.push(kid);
        assert forall|x: int| 0 <= x < e.picks.len() implies self.below_kids(
            #[trigger] e.picks[x],
            id,
            all,
        ) by {
            assert(self.below_kids(e.picks[x], id, kids));
            let c = self.trie.ancestor(
                e.picks[x].node as int,
                self.trie.nodes[id].depth_blocks + 1,
            ) as usize;
            let y = choose|y: int| 0 <= y < kids.len() && kids[y] == c;
            assert(all[y] == c);
        }
    }

    /// The best split is sane where its halves are.
    proof fn split_is_sane(
        self,
        acc: Seq<Best<R>>,
        ch: Seq<Best<R>>,
        m: int,
        n: nat,
        k: nat,
        id: int,
        kids: Seq<NodeId>,
        kid: NodeId,
    )
        requires
            self.trie.wf(),
            self.trie.live(id),
            self.trie.live(kid as int),
            self.trie.nodes[kid as int].depth_blocks == self.trie.nodes[id].depth_blocks + 1,
            !kids.contains(kid),
            0 <= m < acc.len() == ch.len(),
            n <= m + 1,
            forall|i: int|
                0 <= i < acc.len() ==> self.sane_in_kids(#[trigger] acc[i], i, k, id, kids),
            forall|i: int|
                0 <= i < ch.len() ==> self.sane_in_subtree(#[trigger] ch[i], i, k, kid as int),
        ensures
            self.sane_in_kids(best_split(acc, ch, m, n), m, k, id, kids.push(kid)),
        decreases n,
    {
        if n == 0 {
            self.more_kids(acc[m], m, k, id, kids, kid);
        } else {
            let i = n - 1;
            self.split_is_sane(acc, ch, m, (n - 1) as nat, k, id, kids, kid);
            self.and_is_sane(acc[i], ch[m - i], i, m - i, k, id, kids, kid);
        }
    }

    /// Every entry of a subtree's table is sane, within its budget and within
    /// the subtree, whatever is placed above.
    pub(crate) proof fn solved_is_sane(self, id: int, k: nat, up: u64)
        requires
            self.trie.wf(),
            self.trie.sized(),
            self.trie.live(id),
        ensures
            self.solved(id, k, up).len() == k + 1,
            forall|kk: int|
                0 <= kk <= k ==> self.sane_in_subtree(
                    #[trigger] self.solved(id, k, up)[kk],
                    kk,
                    k,
                    id,
                ),
        decreases self.room_below(id), 1int, 0nat,
    {
        let kids = self.trie.children_sorted(id);
        let acc = self.solved_kids(id, kids, k, up);
        let below = self.best_below(id, k);
        self.kids_are_distinct(id);
        assert(kids =~= kids.take(kids.len() as int));
        self.solved_kids_is_sane(id, kids, k, up);
        self.solved_kids_is_sane(id, kids, k, self.trie.tokens(id) as u64);
        let out = self.solved(id, k, up);
        assert forall|kk: int| 0 <= kk <= k implies self.sane_in_subtree(
            #[trigger] out[kk],
            kk,
            k,
            id,
        ) by {
            assert(self.sane_in_kids(acc[kk], kk, k, id, kids));
            self.kids_in_subtree(acc[kk], kk, k, id, kids);
            if kk > 0 && self.eligible(id) {
                assert(self.sane_in_kids(below[kk - 1], kk - 1, k, id, kids));
                self.topped_is_sane(id, below[kk - 1], kk, k, kids, up);
            }
        }
    }

    /// What lies below the children of a node lies below the node.
    proof fn kids_in_subtree(self, e: Best<R>, kk: int, k: nat, id: int, kids: Seq<NodeId>)
        requires
            self.trie.wf(),
            self.trie.live(id),
            kids == self.trie.children_sorted(id),
            self.sane_in_kids(e, kk, k, id, kids),
        ensures
            self.sane_in_subtree(e, kk, k, id),
    {
        assert forall|x: int| 0 <= x < e.picks.len() implies self.at_or_below(
            #[trigger] e.picks[x],
            id,
        ) by {
            let p = e.picks[x];
            assert(self.pays(e.picks, x, k));
            assert(self.below_kids(p, id, kids));
            let d = self.trie.nodes[id].depth_blocks as int;
            self.trie.ancestors_hang(p.node as int, d);
            let c = self.trie.ancestor(p.node as int, d + 1);
            let y = choose|y: int| 0 <= y < kids.len() && kids[y] == c as usize;
            self.trie.sorted_child_hangs(id, y);
            assert(self.trie.live(c));
            self.trie.ancestor_is_live(p.node as int, d);
        }
    }

    /// A placement on top of sane ones is sane.
    proof fn topped_is_sane(
        self,
        id: int,
        base: Best<R>,
        kk: int,
        k: nat,
        kids: Seq<NodeId>,
        up: u64,
    )
        requires
            self.trie.wf(),
            self.trie.sized(),
            self.trie.live(id),
            kids == self.trie.children_sorted(id),
            1 <= kk <= k,
            base == self.best_below(id, k)[kk - 1],
            self.sane_in_kids(base, kk - 1, k, id, kids),
            self.eligible(id),
        ensures
            self.topped(id, base, up) is Some ==> self.sane_in_subtree(
                self.topped(id, base, up)->0,
                kk,
                k,
                id,
            ),
    {
        self.kids_in_subtree(base, kk - 1, k, id, kids);
        if let Some(e) = self.topped(id, base, up) {
            let n = base.picks.len() as int;
            assert(e.picks[n] == e.picks.last());
            assert(e.picks.subrange(0, n) =~= base.picks);
            assert(self.rests_on(e.picks, n, k, kk - 1));
            assert(self.pays(e.picks, n, k));
            assert forall|x: int| #![trigger e.picks[x]] 0 <= x < e.picks.len() implies self.pays(
                e.picks,
                x,
                k,
            ) && self.at_or_below(e.picks[x], id) by {
                if x < base.picks.len() {
                    assert(e.picks[x] == base.picks[x]);
                    self.pays_in_more(base.picks, x, e.picks, x, k);
                }
            }
            assert forall|x: int, y: int| 0 <= x < y < e.picks.len() implies (
            #[trigger] e.picks[x]).node != (#[trigger] e.picks[y]).node by {
                assert(e.picks[x] == base.picks[x]);
                assert(self.below_kids(base.picks[x], id, kids));
                if y < base.picks.len() {
                    assert(e.picks[y] == base.picks[y]);
                }
            }
        }
    }

    /// Every entry of the table of some children is sane, within its budget and
    /// below them.
    pub(crate) proof fn solved_kids_is_sane(self, id: int, kids: Seq<NodeId>, k: nat, up: u64)
        requires
            self.trie.wf(),
            self.trie.sized(),
            self.trie.live(id),
            kids.len() <= self.trie.children_sorted(id).len(),
            kids == self.trie.children_sorted(id).take(kids.len() as int),
            self.trie.children_sorted(id).no_duplicates(),
        ensures
            self.solved_kids(id, kids, k, up).len() == k + 1,
            forall|kk: int|
                0 <= kk <= k ==> self.sane_in_kids(
                    #[trigger] self.solved_kids(id, kids, k, up)[kk],
                    kk,
                    k,
                    id,
                    kids,
                ),
        decreases self.room_below(id), 0int, kids.len(),
    {
        if kids.len() > 0 {
            let all = self.trie.children_sorted(id);
            let rest = kids.drop_last();
            let kid = kids.last();
            assert(kid == all[kids.len() - 1]);
            assert(rest =~= all.take(rest.len() as int));
            self.trie.sorted_child_hangs(id, kids.len() - 1);
            self.solved_kids_is_sane(id, rest, k, up);
            self.solved_is_sane(kid as int, k, up);
            let acc = self.solved_kids(id, rest, k, up);
            let ch = self.solved(kid as int, k, up);
            if rest.contains(kid) {
                let y = choose|y: int| 0 <= y < rest.len() && rest[y] == kid;
                assert(all[y] == all[kids.len() - 1]);
            }
            assert(rest.push(kid) =~= kids);
            let out = self.solved_kids(id, kids, k, up);
            assert(out == merged(acc, ch));
            assert forall|kk: int| 0 <= kk <= k implies self.sane_in_kids(
                #[trigger] out[kk],
                kk,
                k,
                id,
                kids,
            ) by {
                self.split_is_sane(acc, ch, kk, (kk + 1) as nat, k, id, rest, kid);
            }
        }
    }
}

impl<R: Real> TrieModel<R> {
    /// Ancestors are nodes of the trie.
    pub(crate) proof fn ancestor_is_live(self, x: int, d: int)
        requires
            self.wf(),
            self.live(x),
        ensures
            self.live(self.ancestor(x, d)),
        decreases self.nodes[x].depth_blocks,
    {
        if self.nodes[x].depth_blocks > d {
            if x != 0 {
                assert(self.hangs(x));
                self.ancestor_is_live(self.nodes[x].parent->0 as int, d);
            }
        }
    }
}

/// The last of the highest-ranked is one of them.
pub proof fn top_ranked_is_top<R: Real>(entries: Seq<Best<R>>, n: nat)
    requires
        1 <= n <= entries.len(),
    ensures
        0 <= top_ranked(entries, n) < n,
        forall|i: int|
            0 <= i < n ==> (#[trigger] entries[i]).value.rank() <= entries[top_ranked(
                entries,
                n,
            )].value.rank(),
        forall|i: int|
            top_ranked(entries, n) < i < n ==> (#[trigger] entries[i]).value.rank() < entries[
                top_ranked(entries, n)
            ].value.rank(),
    decreases n,
{
    if n > 1 {
        top_ranked_is_top(entries, (n - 1) as nat);
    }
}

/// A plan stays within the budget of breakpoints, and places each cache point
/// where it pays on the traffic that the placements below it leave, no two at
/// one node.
pub proof fn plan_is_sane<R: Real>(ask: Ask<R>)
    requires
        ask.trie.wf(),
        ask.trie.sized(),
    ensures
        ask.sane(
            ask.chosen(),
            ask.prices.max_breakpoints as int,
            ask.prices.max_breakpoints as nat,
        ),
{
    if ask.prices.max_breakpoints != 0 && ask.prices.regime() != Regime::ShapeOnly {
        let k = ask.prices.max_breakpoints as nat;
        ask.solved_is_sane(0, k, 0);
        let entries = ask.solved(0, k, 0);
        top_ranked_is_top(entries, entries.len());
        let best = top_ranked(entries, entries.len());
        assert(ask.sane_in_subtree(entries[best], best, k, 0));
    }
}

/// The tier that is bought is the cheapest for the traffic, the first of equals.
pub proof fn cheapest_tier_is_cheapest(
    prices: Prices<Fixed>,
    upto: nat,
    tokens: u64,
    stats: Traffic<Fixed>,
    lambda: Fixed,
)
    requires
        1 <= upto <= prices.write_tiers.len(),
    ensures
        ({
            let best = prices.cheapest_tier(upto, tokens, stats, lambda);
            &&& best is Some
            &&& exists|k: int|
                {
                    &&& 0 <= k < upto
                    &&& best == Some(
                        (
                            prices.rewrite_rate(
                                #[trigger] prices.write_tiers[k],
                                tokens,
                                stats,
                                lambda,
                            ),
                            prices.write_tiers[k].ttl_hours,
                        ),
                    )
                    &&& forall|i: int|
                        0 <= i < k ==> (best->0).0.units < prices.rewrite_rate(
                            #[trigger] prices.write_tiers[i],
                            tokens,
                            stats,
                            lambda,
                        ).units
                }
            &&& forall|i: int|
                0 <= i < upto ==> (best->0).0.units <= prices.rewrite_rate(
                    #[trigger] prices.write_tiers[i],
                    tokens,
                    stats,
                    lambda,
                ).units
        }),
    decreases upto,
{
    let last = prices.write_tiers[upto - 1];
    let c = prices.rewrite_rate(last, tokens, stats, lambda);
    if upto > 1 {
        let less = (upto - 1) as nat;
        cheapest_tier_is_cheapest(prices, less, tokens, stats, lambda);
        let best = prices.cheapest_tier(less, tokens, stats, lambda);
        if !c.below((best->0).0) {
            let k = choose|k: int|
                {
                    &&& 0 <= k < less
                    &&& best == Some(
                        (
                            prices.rewrite_rate(
                                #[trigger] prices.write_tiers[k],
                                tokens,
                                stats,
                                lambda,
                            ),
                            prices.write_tiers[k].ttl_hours,
                        ),
                    )
                    &&& forall|i: int|
                        0 <= i < k ==> (best->0).0.units < prices.rewrite_rate(
                            #[trigger] prices.write_tiers[i],
                            tokens,
                            stats,
                            lambda,
                        ).units
                };
            assert(0 <= k < upto);
        } else {
            assert(prices.write_tiers[upto - 1] == last);
        }
    } else {
        assert(prices.cheapest_tier(0, tokens, stats, lambda) is None);
        assert(prices.write_tiers[0] == last);
    }
}

} // verus!
