//! Which requests share a prefix worth caching.
use vstd::prelude::*;

use crate::number::Real;
use crate::sim::laws::trie_of_trace_is_wf;
use crate::sim::model::{deepest_worth, trie_of, worth_caching, Case};
use crate::total::{total_changes, total_grows, total_of, total_of_nothing};
use crate::trie::NodeId;

verus! {

impl<R: Real> Case<R> {
    /// Whether the request `i` begins with the blocks `p`.
    pub open spec fn begins(self, i: int, p: Seq<u64>) -> bool {
        &&& p.len() <= self.trace[i].blocks.len()
        &&& self.trace[i].blocks.take(p.len() as int) == p
    }

    /// How many of the first `upto` requests begin with `p`.
    pub open spec fn sharers(self, p: Seq<u64>, upto: nat) -> int {
        total_of(
            upto,
            |i: int|
                if self.begins(i, p) {
                    1int
                } else {
                    0
                },
        )
    }

    /// Whether the node budget has room for every request.
    pub open spec fn uncut(self) -> bool {
        forall|i: int|
            0 <= i < self.trace.len() ==> trie_of(self.trace, self.cfg, i as nat).observed_path(
                0,
                (#[trigger] self.trace[i]).blocks,
                self.trace[i].time_hours,
            ).1.len() == self.trace[i].blocks.len()
    }

    proof fn sharers_are_few(self, p: Seq<u64>, upto: nat)
        ensures
            0 <= self.sharers(p, upto) <= upto,
        decreases upto,
    {
        if upto > 0 {
            self.sharers_are_few(p, (upto - 1) as nat);
        }
    }

    /// The trie of a trace holds a node for each prefix that a request begins
    /// with, and counts the requests that do.
    #[verifier::rlimit(60)]
    pub proof fn trie_counts_sharers(self, p: Seq<u64>, upto: nat)
        requires
            self.fits(),
            self.uncut(),
            upto <= self.trace.len() <= u64::MAX,
            p.len() > 0,
            forall|i: int|
                0 <= i < self.trace.len() ==> (#[trigger] self.trace[i]).blocks.len() <= u64::MAX,
        ensures
            ({
                let t = trie_of(self.trace, self.cfg, upto);
                &&& t.passes(p) == self.sharers(p, upto)
                &&& t.leads_to(p) <==> self.sharers(p, upto) > 0
            }),
        decreases upto,
    {
        self.sharers_are_few(p, upto);
        if upto == 0 {
            let t = trie_of(self.trace, self.cfg, 0);
            assert(t.nodes[0].children.dom() =~= Set::empty());
            assert(!t.nodes[0].children.contains_key(p[0]));
            assert(t.peeked_path(0, p).len() == 0);
        } else {
            let k = (upto - 1) as nat;
            self.trie_counts_sharers(p, k);
            self.sharers_are_few(p, k);
            trie_of_trace_is_wf(self, k);
            let t = trie_of(self.trace, self.cfg, k);
            let e = self.trace[k as int];
            assert(t.observed_path(0, e.blocks, e.time_hours).1.len() == e.blocks.len());
            t.request_counts_at_its_prefixes(e.blocks, e.time_hours, p);
        }
    }

    /// Whether another request than `i` begins with the first `n` blocks of `i`.
    pub open spec fn shares(self, i: int, n: int) -> bool {
        exists|j: int|
            0 <= j < self.trace.len() && j != i && #[trigger] self.begins(
                j,
                self.trace[i].blocks.take(n),
            )
    }

    /// A prefix of a request counts two or more exactly where another request
    /// shares it.
    proof fn two_share(self, i: int, n: int)
        requires
            0 <= i < self.trace.len(),
            0 <= n <= self.trace[i].blocks.len(),
        ensures
            self.sharers(self.trace[i].blocks.take(n), self.trace.len()) >= 2 <==> self.shares(
                i,
                n,
            ),
    {
        let p = self.trace[i].blocks.take(n);
        let all = self.trace.len();
        let f = |j: int|
            if self.begins(j, p) {
                1int
            } else {
                0
            };
        let g = |j: int|
            if j != i && self.begins(j, p) {
                1int
            } else {
                0
            };
        assert(self.begins(i, p)) by {
            assert(self.trace[i].blocks.take(p.len() as int) =~= p);
        }
        assert forall|j: int| 0 <= j < all && j != i implies #[trigger] f(j) == g(j) by {}
        total_changes(all, f, g, i);
        if self.shares(i, n) {
            let j = choose|j: int| 0 <= j < all && j != i && #[trigger] self.begins(j, p);
            assert(g(j) == 1);
            assert forall|x: int| 0 <= x < all implies 0 <= #[trigger] g(x) by {}
            total_grows((j + 1) as nat, all, g);
            total_grows(j as nat, (j + 1) as nat, g);
            total_grows(0, j as nat, g);
        } else {
            assert forall|x: int| 0 <= x < all implies #[trigger] g(x) == 0 by {
                if x != i && self.begins(x, p) {
                    assert(self.shares(i, n));
                }
            }
            total_of_nothing(all, g);
        }
    }

    /// The deepest node worth caching is below all others of a path.
    #[verifier::rlimit(60)]
    proof fn deepest_worth_is_deepest(self, path: Seq<NodeId>)
        ensures
            ({
                let t = self.trie();
                match deepest_worth(t, self.prices, path) {
                    Some(x) => exists|k: int|
                        {
                            &&& 0 <= k < path.len()
                            &&& #[trigger] path[k] == x
                            &&& worth_caching(t, self.prices, x)
                            &&& forall|j: int|
                                k < j < path.len() ==> !worth_caching(
                                    t,
                                    self.prices,
                                    #[trigger] path[j],
                                )
                        },
                    None => forall|j: int|
                        0 <= j < path.len() ==> !worth_caching(t, self.prices, #[trigger] path[j]),
                }
            }),
        decreases path.len(),
    {
        let t = self.trie();
        if path.len() > 0 {
            let rest = path.drop_last();
            let last = path.len() - 1;
            assert(path[last] == path.last());
            self.deepest_worth_is_deepest(rest);
            if !worth_caching(t, self.prices, path.last()) {
                if let Some(x) = deepest_worth(t, self.prices, rest) {
                    let k = choose|k: int|
                        {
                            &&& 0 <= k < rest.len()
                            &&& #[trigger] rest[k] == x
                            &&& worth_caching(t, self.prices, x)
                            &&& forall|j: int|
                                k < j < rest.len() ==> !worth_caching(
                                    t,
                                    self.prices,
                                    #[trigger] rest[j],
                                )
                        };
                    assert(path[k] == x);
                    assert forall|j: int| k < j < path.len() implies !worth_caching(
                        t,
                        self.prices,
                        #[trigger] path[j],
                    ) by {
                        if j < last {
                            assert(rest[j] == path[j]);
                        }
                    }
                } else {
                    assert forall|j: int| 0 <= j < path.len() implies !worth_caching(
                        t,
                        self.prices,
                        #[trigger] path[j],
                    ) by {
                        if j < last {
                            assert(rest[j] == path[j]);
                        }
                    }
                }
            }
        }
    }

    /// Whether the first `n` blocks of the request `i` are a prefix worth caching:
    /// long enough, and shared with another request.
    pub open spec fn is_worth(self, i: int, n: int) -> bool {
        &&& n * self.cfg.block_tokens >= self.prices.min_cacheable_tokens
        &&& self.shares(i, n)
    }

    /// The prefix that a request is grouped by is the longest that is long enough
    /// to cache and that another request of the trace begins with; it is grouped
    /// by none only where there is none.
    #[verifier::rlimit(60)]
    pub proof fn family_is_longest_shared(self, i: int)
        requires
            self.fits(),
            self.uncut(),
            self.trace.len() <= u64::MAX,
            0 <= i < self.trace.len(),
            forall|j: int|
                0 <= j < self.trace.len() ==> (#[trigger] self.trace[j]).blocks.len() <= u64::MAX,
        ensures
            match self.family(self.trace[i]) {
                Some(x) => exists|n: int|
                    {
                        &&& 1 <= n <= self.trace[i].blocks.len()
                        &&& #[trigger] self.is_worth(i, n)
                        &&& self.tokens(x) == n * self.cfg.block_tokens
                        &&& forall|m: int|
                            n < m <= self.trace[i].blocks.len() ==> !#[trigger] self.is_worth(
                                i,
                                m,
                            )
                    },
                None => forall|m: int|
                    1 <= m <= self.trace[i].blocks.len() ==> !#[trigger] self.is_worth(i, m),
            },
    {
        let all = self.trace.len();
        let t = self.trie();
        let w = self.trace[i].blocks;
        trie_of_trace_is_wf(self, all);
        let path = t.peeked_path(0, w);
        t.peeked_links(0, w);
        if w.len() > 0 {
            self.trie_counts_sharers(w, all);
            self.sharers_count(i, w.len() as int);
            assert(w.take(w.len() as int) =~= w);
        }
        assert(path.len() == w.len());
        assert forall|k: int| 0 <= k < path.len() implies worth_caching(
            t,
            self.prices,
            #[trigger] path[k],
        ) == self.is_worth(i, k + 1) && t.tokens(path[k] as int) == (k + 1)
            * self.cfg.block_tokens by {
            let p = w.take(k + 1);
            self.trie_counts_sharers(p, all);
            self.two_share(i, k + 1);
            self.sharers_count(i, k + 1);
            assert(p.take(k + 1) =~= p);
            t.peek_shares_prefix(0, w, p, (k + 1) as nat);
            assert(t.leads_to(p));
            assert(t.peeked_path(0, p)[k] == path[k]);
            assert(t.nodes[path[k] as int].depth_blocks == k + 1);
        }
        self.deepest_worth_is_deepest(path);
        if let Some(x) = self.family(self.trace[i]) {
            let k = choose|k: int|
                {
                    &&& 0 <= k < path.len()
                    &&& #[trigger] path[k] == x
                    &&& worth_caching(t, self.prices, x)
                    &&& forall|j: int|
                        k < j < path.len() ==> !worth_caching(t, self.prices, #[trigger] path[j])
                };
            assert(self.is_worth(i, k + 1));
            assert(t.live(x as int));
            assert(t.tokens(x as int) <= u64::MAX);
            assert forall|m: int| k + 1 < m <= w.len() implies !#[trigger] self.is_worth(i, m) by {
                assert(!worth_caching(t, self.prices, path[m - 1]));
            }
        } else {
            assert forall|m: int| 1 <= m <= w.len() implies !#[trigger] self.is_worth(i, m) by {
                assert(!worth_caching(t, self.prices, path[m - 1]));
            }
        }
    }

    /// A request begins with its own prefixes.
    proof fn sharers_count(self, i: int, n: int)
        requires
            0 <= i < self.trace.len(),
            0 <= n <= self.trace[i].blocks.len(),
        ensures
            self.sharers(self.trace[i].blocks.take(n), self.trace.len()) > 0,
    {
        let p = self.trace[i].blocks.take(n);
        let all = self.trace.len();
        let f = |j: int|
            if self.begins(j, p) {
                1int
            } else {
                0
            };
        assert(self.begins(i, p)) by {
            assert(self.trace[i].blocks.take(p.len() as int) =~= p);
        }
        assert(f(i) == 1);
        assert forall|x: int| 0 <= x < all implies 0 <= #[trigger] f(x) by {}
        total_grows((i + 1) as nat, all, f);
        total_grows(0, i as nat, f);
    }

    /// Requests that are grouped together begin with the same blocks, as many as
    /// their prefix has.
    pub proof fn families_share_their_prefix(self, i: int, j: int, x: NodeId)
        requires
            self.fits(),
            0 <= i < self.trace.len(),
            0 <= j < self.trace.len(),
            self.family(self.trace[i]) == Some(x),
            self.family(self.trace[j]) == Some(x),
            forall|k: int|
                0 <= k < self.trace.len() ==> (#[trigger] self.trace[k]).blocks.len() <= u64::MAX,
        ensures
            ({
                let d = self.trie().nodes[x as int].depth_blocks as int;
                &&& 1 <= d <= self.trace[i].blocks.len()
                &&& d <= self.trace[j].blocks.len()
                &&& self.trace[i].blocks.take(d) == self.trace[j].blocks.take(d)
            }),
    {
        let t = self.trie();
        trie_of_trace_is_wf(self, self.trace.len());
        let (v, w) = (self.trace[i].blocks, self.trace[j].blocks);
        let (p, q) = (t.peeked_path(0, v), t.peeked_path(0, w));
        t.peeked_links(0, v);
        t.peeked_links(0, w);
        self.deepest_worth_is_deepest(p);
        self.deepest_worth_is_deepest(q);
        let a = choose|k: int| 0 <= k < p.len() && #[trigger] p[k] == x;
        let b = choose|k: int| 0 <= k < q.len() && #[trigger] q[k] == x;
        assert(t.nodes[p[a] as int].depth_blocks == a + 1);
        assert(t.nodes[q[b] as int].depth_blocks == b + 1);
        t.one_prefix_a_node(v, w, a);
    }
}

} // verus!
