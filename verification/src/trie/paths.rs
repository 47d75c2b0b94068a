//! Nodes and the blocks that lead to them: each node stands for one prefix, and
//! counts the requests that begin with it.
use vstd::prelude::*;

use crate::number::Real;
use crate::trie::{NodeId, TrieModel};

verus! {

impl<R: Real> TrieModel<R> {
    /// Whether `blocks` lead all the way to a node.
    pub open spec fn leads_to(self, blocks: Seq<u64>) -> bool {
        self.peeked_path(0, blocks).len() == blocks.len()
    }

    /// The links along a look-up.
    #[verifier::rlimit(60)]
    pub proof fn peeked_links(self, cur: NodeId, blocks: Seq<u64>)
        requires
            self.wf(),
            self.live(cur as int),
        ensures
            ({
                let path = self.peeked_path(cur, blocks);
                &&& path.len() <= blocks.len()
                &&& forall|i: int|
                    0 <= i < path.len() ==> {
                        let n = self.nodes[#[trigger] path[i] as int];
                        &&& self.live(path[i] as int)
                        &&& path[i] != 0
                        &&& n.edge == blocks[i]
                        &&& n.depth_blocks == self.nodes[cur as int].depth_blocks + i + 1
                        &&& n.parent == Some(
                            if i == 0 {
                                cur
                            } else {
                                path[i - 1]
                            },
                        )
                    }
            }),
        decreases blocks.len(),
    {
        if blocks.len() > 0 && self.nodes[cur as int].children.contains_key(blocks[0]) {
            assert(self.leads(cur as int, blocks[0]));
            let next = self.nodes[cur as int].children[blocks[0]];
            assert(self.hangs(next as int));
            let rest = blocks.drop_first();
            self.peeked_links(next, rest);
            let tail = self.peeked_path(next, rest);
            let path = self.peeked_path(cur, blocks);
            assert(path == seq![next] + tail);
            assert forall|i: int| 0 <= i < path.len() implies ({
                let n = self.nodes[#[trigger] path[i] as int];
                &&& self.live(path[i] as int)
                &&& path[i] != 0
                &&& n.edge == blocks[i]
                &&& n.depth_blocks == self.nodes[cur as int].depth_blocks + i + 1
                &&& n.parent == Some(
                    if i == 0 {
                        cur
                    } else {
                        path[i - 1]
                    },
                )
            }) by {
                if i > 0 {
                    assert(path[i] == tail[i - 1]);
                    assert(rest[i - 1] == blocks[i]);
                    if i > 1 {
                        assert(path[i - 1] == tail[i - 2]);
                    }
                }
            }
        }
    }

    /// Two look-ups that end at one node are of the same blocks.
    #[verifier::rlimit(60)]
    pub proof fn one_prefix_a_node(self, a: Seq<u64>, b: Seq<u64>, k: int)
        requires
            self.wf(),
            0 <= k < self.peeked_path(0, a).len(),
            k < self.peeked_path(0, b).len(),
            self.peeked_path(0, a)[k] == self.peeked_path(0, b)[k],
        ensures
            a.take(k + 1) == b.take(k + 1),
        decreases k,
    {
        self.peeked_links(0, a);
        self.peeked_links(0, b);
        let p = self.peeked_path(0, a);
        let q = self.peeked_path(0, b);
        assert(self.nodes[p[k] as int].edge == a[k]);
        assert(self.nodes[q[k] as int].edge == b[k]);
        if k > 0 {
            assert(self.nodes[p[k] as int].parent == Some(p[k - 1]));
            assert(self.nodes[q[k] as int].parent == Some(q[k - 1]));
            self.one_prefix_a_node(a, b, k - 1);
            assert forall|i: int| 0 <= i < k implies a[i] == b[i] by {
                assert(a.take(k)[i] == b.take(k)[i]);
            }
        }
        assert(a.take(k + 1) =~= b.take(k + 1));
    }

    /// What a trie keeps is found in it by the same blocks.
    #[verifier::rlimit(60)]
    pub proof fn kept_paths_are_found(self, u: Self, cur: NodeId, blocks: Seq<u64>)
        requires
            self.wf(),
            self.live(cur as int),
            self.keeps(u),
            self.peeked_path(cur, blocks).len() == blocks.len(),
        ensures
            u.peeked_path(cur, blocks) == self.peeked_path(cur, blocks),
        decreases blocks.len(),
    {
        if blocks.len() > 0 {
            assert(self.keeps_node(u, cur as int));
            assert(self.nodes[cur as int].children.contains_key(blocks[0]));
            assert(self.leads(cur as int, blocks[0]));
            let next = self.nodes[cur as int].children[blocks[0]];
            let rest = blocks.drop_first();
            assert(self.peeked_path(cur, blocks).len() == 1 + self.peeked_path(next, rest).len());
            self.kept_paths_are_found(u, next, rest);
        }
    }

    /// What leads to a node that was there before led to it before.
    #[verifier::rlimit(60)]
    proof fn old_nodes_were_found(self, u: Self, blocks: Seq<u64>)
        requires
            self.wf(),
            u.wf(),
            self.keeps(u),
            blocks.len() > 0,
            u.leads_to(blocks),
            self.live(u.peeked_path(0, blocks).last() as int),
        ensures
            self.leads_to(blocks),
        decreases blocks.len(),
    {
        let q = u.peeked_path(0, blocks);
        let m = blocks.len() - 1;
        u.peeked_links(0, blocks);
        let x = q[m];
        assert(self.keeps_node(u, x as int));
        assert(self.hangs(x as int));
        let rest = blocks.drop_last();
        assert(blocks.take(m) =~= rest);
        assert(rest.take(m) =~= rest);
        u.peek_shares_prefix(0, blocks, rest, m as nat);
        u.peek_shares_prefix(0, rest, blocks, m as nat);
        let r = u.peeked_path(0, rest);
        u.peeked_links(0, rest);
        assert(r.len() == m);
        if m > 0 {
            assert(r[m - 1] == q[m - 1]);
            assert(u.nodes[x as int].parent == Some(q[m - 1]));
            self.old_nodes_were_found(u, rest);
            self.kept_paths_are_found(u, 0, rest);
            assert(self.peeked_path(0, rest)[m - 1] == q[m - 1]);
        }
        self.one_step_more(rest, blocks, x);
    }

    /// A look-up goes on by an edge.
    proof fn one_step_more(self, rest: Seq<u64>, blocks: Seq<u64>, x: NodeId)
        requires
            self.wf(),
            blocks.len() > 0,
            rest == blocks.drop_last(),
            self.leads_to(rest),
            ({
                let at = if rest.len() == 0 {
                    0
                } else {
                    self.peeked_path(0, rest).last()
                };
                &&& self.nodes[at as int].children.contains_key(blocks.last())
                &&& self.nodes[at as int].children[blocks.last()] == x
            }),
        ensures
            self.leads_to(blocks),
            self.peeked_path(0, blocks) == self.peeked_path(0, rest).push(x),
    {
        self.step_more_from(0, rest, blocks, x);
    }

    #[verifier::rlimit(60)]
    proof fn step_more_from(self, cur: NodeId, rest: Seq<u64>, blocks: Seq<u64>, x: NodeId)
        requires
            self.wf(),
            blocks.len() > 0,
            rest == blocks.drop_last(),
            self.peeked_path(cur, rest).len() == rest.len(),
            ({
                let at = if rest.len() == 0 {
                    cur
                } else {
                    self.peeked_path(cur, rest).last()
                };
                &&& self.nodes[at as int].children.contains_key(blocks.last())
                &&& self.nodes[at as int].children[blocks.last()] == x
            }),
        ensures
            self.peeked_path(cur, blocks) == self.peeked_path(cur, rest).push(x),
            self.peeked_path(cur, blocks).len() == blocks.len(),
        decreases blocks.len(),
    {
        if rest.len() == 0 {
            assert(blocks[0] == blocks.last());
            assert(blocks.drop_first() =~= Seq::empty());
            assert(self.peeked_path(x, blocks.drop_first()) =~= Seq::empty());
            assert(self.peeked_path(cur, rest) =~= Seq::empty());
            assert(self.peeked_path(cur, blocks) =~= seq![x]);
            assert(Seq::<NodeId>::empty().push(x) =~= seq![x]);
        } else {
            assert(rest[0] == blocks[0]);
            let next = self.nodes[cur as int].children[rest[0]];
            let a = rest.drop_first();
            let b = blocks.drop_first();
            assert(a =~= b.drop_last());
            let p = self.peeked_path(next, a);
            assert(self.peeked_path(cur, rest) == seq![next] + p);
            assert(b.last() == blocks.last());
            if a.len() > 0 {
                assert((seq![next] + p).last() == p.last());
            } else {
                assert(p =~= Seq::empty());
                assert((seq![next] + p).last() == next);
            }
            self.step_more_from(next, a, b, x);
            assert(seq![next] + p.push(x) =~= (seq![next] + p).push(x));
        }
    }

    /// What a walk adds, it passes.
    #[verifier::rlimit(60)]
    proof fn walk_passes_what_it_adds(self, cur: NodeId, blocks: Seq<u64>, now: R)
        requires
            self.wf(),
            self.live(cur as int),
            self.nodes[cur as int].depth_blocks + blocks.len() <= u64::MAX,
        ensures
            ({
                let (t, path) = self.observed_path(cur, blocks, now);
                forall|id: int| #[trigger]
                    t.live(id) && !self.live(id) ==> path.contains(id as usize)
            }),
        decreases blocks.len(),
    {
        if blocks.len() > 0 {
            let b = blocks[0];
            let rest = blocks.drop_first();
            if let Some((s, next)) = self.step(cur, b) {
                let u = s.touched(next, now);
                self.step_is_wf(cur, blocks, now);
                if !self.nodes[cur as int].children.contains_key(b) {
                    self.grown_is_wf(cur, b);
                }
                s.with_node_is_wf(next as int, u.nodes[next as int]);
                u.walk_passes_what_it_adds(next, rest, now);
                let (t, tail) = u.observed_path(next, rest, now);
                let path = self.observed_path(cur, blocks, now).1;
                assert(path =~= seq![next] + tail);
                assert forall|id: int| #[trigger] t.live(id) && !self.live(id) implies
                    path.contains(id as usize) by {
                    assert(path[0] == next);
                    if id != next {
                        assert(u.live(id) == self.live(id));
                        assert(tail.contains(id as usize));
                        let k = choose|k: int| 0 <= k < tail.len() && tail[k] == id as usize;
                        assert(path[k + 1] == id as usize);
                    }
                }
            }
        }
    }

    /// How often the node that `p` leads to was passed, zero where there is none.
    pub open spec fn passes(self, p: Seq<u64>) -> int {
        if self.leads_to(p) {
            self.nodes[self.peeked_path(0, p).last() as int].stats.raw_count as int
        } else {
            0
        }
    }

    /// A request counts at each prefix that it begins with, and at no other: the
    /// node of such a prefix is there afterwards, and was passed once more; of any
    /// other prefix, whether there is a node and how often it was passed is as
    /// before.
    #[verifier::rlimit(60)]
    pub proof fn request_counts_at_its_prefixes(self, w: Seq<u64>, now: R, p: Seq<u64>)
        requires
            self.wf(),
            w.len() <= u64::MAX,
            p.len() > 0,
            self.observed_path(0, w, now).1.len() == w.len(),
            self.passes(p) < u64::MAX,
        ensures
            ({
                let t = self.observed_path(0, w, now).0;
                if p.len() <= w.len() && w.take(p.len() as int) == p {
                    t.leads_to(p) && t.passes(p) == self.passes(p) + 1
                } else {
                    t.leads_to(p) == self.leads_to(p) && t.passes(p) == self.passes(p)
                }
            }),
    {
        let (u, path) = self.observed_path(0, w, now);
        self.walk_is_kept(0, w, now);
        self.walk_records(0, w, now);
        self.walk_adds_beyond(0, w, now);
        self.walk_passes_what_it_adds(0, w, now);
        assert(u.peeked_path(0, w) == path);
        let m = p.len() as int;
        assert(p.take(m) =~= p);
        self.peeked_links(0, p);
        u.peeked_links(0, p);
        if self.leads_to(p) {
            self.kept_paths_are_found(u, 0, p);
        }
        if m <= w.len() && w.take(m) == p {
            u.peek_shares_prefix(0, w, p, m as nat);
            assert(u.leads_to(p));
            let x = u.peeked_path(0, p)[m - 1];
            assert(x == path[m - 1]);
            if !self.leads_to(p) {
                self.peek_shares_prefix(0, w, p, m as nat);
                self.peeked_links(0, w);
                assert(self.peeked_path(0, w).len() < m) by {
                    if self.peeked_path(0, w).len() >= m {
                        self.peek_shares_prefix(0, w, p, m as nat);
                    }
                }
                assert(!self.live(path[m - 1] as int));
            }
            assert(u.nodes[path[m - 1] as int].stats.raw_count == self.passes(p) + 1);
        } else {
            if u.leads_to(p) {
                let x = u.peeked_path(0, p)[m - 1];
                assert(!path.contains(x)) by {
                    if path.contains(x) {
                        let j = choose|j: int| 0 <= j < path.len() && path[j] == x;
                        u.peeked_links(0, w);
                        assert(u.nodes[path[j] as int].depth_blocks == j + 1);
                        assert(j == m - 1);
                        u.one_prefix_a_node(w, p, m - 1);
                    }
                }
                assert(u.live(x as int));
                assert(self.live(x as int));
                self.old_nodes_were_found(u, p);
            }
        }
    }
}

} // verus!
