//! What holds of every trie, whatever was observed and collected.
use vstd::prelude::*;

use crate::number::Real;
use crate::stats::Traffic;
use crate::trie::{Lulls, NodeId, NodeModel, TrieModel};

verus! {

impl<R: Real> TrieModel<R> {
    /// Whether `t` holds every node of this trie where it was, with all its
    /// links and all that is known of its cache; what `t` holds besides is new
    /// and uncached.
    pub open spec fn keeps(self, t: Self) -> bool {
        &&& t.block_tokens == self.block_tokens
        &&& t.tau_decay == self.tau_decay
        &&& t.max_nodes == self.max_nodes
        &&& t.nodes.len() >= self.nodes.len()
        &&& t.alive_count >= self.alive_count
        &&& forall|id: int| #[trigger] self.live(id) ==> self.keeps_node(t, id)
        &&& forall|id: int| #[trigger] t.live(id) && !self.live(id) ==> new_node(t.nodes[id])
    }

    pub open spec fn keeps_node(self, t: Self, id: int) -> bool {
        let n = self.nodes[id];
        let m = t.nodes[id];
        &&& t.live(id)
        &&& m.edge == n.edge
        &&& m.parent == n.parent
        &&& m.depth_blocks == n.depth_blocks
        &&& m.state == n.state
        &&& m.last_flip == n.last_flip
        &&& m.hold_hint == n.hold_hint
        &&& m.last_delete == n.last_delete
        &&& m.lulls == n.lulls
        &&& m.ahead == n.ahead
        &&& forall|b: u64|
            #![trigger n.children.contains_key(b)]
            #![trigger m.children.contains_key(b)]
            n.children.contains_key(b) ==> m.children.contains_key(b) && m.children[b]
                == n.children[b]
    }

    /// Every link and every free slot lies in the arena.
    pub open spec fn in_range(self) -> bool {
        &&& forall|p: int, b: u64|
            0 <= p < self.nodes.len() && #[trigger] self.nodes[p].children.contains_key(b)
                ==> self.nodes[p].children[b] < self.nodes.len()
        &&& forall|i: int| 0 <= i < self.free.len() ==> (#[trigger] self.free[i]) < self.nodes.len()
    }

    /// A tree lies in its arena.
    pub proof fn wf_is_in_range(self)
        requires
            self.wf(),
        ensures
            self.in_range(),
    {
        assert forall|p: int, b: u64|
            0 <= p < self.nodes.len() && #[trigger] self.nodes[p].children.contains_key(
                b,
            ) implies self.nodes[p].children[b] < self.nodes.len() by {
            assert(self.leads(p, b));
        }
    }

    /// A walk never shrinks the arena, and stays in it.
    pub proof fn walk_never_shrinks(self, cur: NodeId, blocks: Seq<u64>, now: R)
        requires
            self.in_range(),
            cur < self.nodes.len(),
        ensures
            self.observed_path(cur, blocks, now).0.nodes.len() >= self.nodes.len(),
            self.observed_path(cur, blocks, now).0.in_range(),
        decreases blocks.len(),
    {
        if blocks.len() > 0 {
            let b = blocks[0];
            if let Some((t, next)) = self.step(cur, b) {
                let u = t.touched(next, now);
                if !self.nodes[cur as int].children.contains_key(b) {
                    if self.free.len() > 0 {
                        assert(self.free[self.free.len() - 1] == next);
                    }
                    assert forall|p: int, e: u64|
                        0 <= p < u.nodes.len() && #[trigger] u.nodes[p].children.contains_key(
                            e,
                        ) implies u.nodes[p].children[e] < u.nodes.len() by {
                        if p == next || p == cur && e == b {
                        } else if p < self.nodes.len() {
                            assert(self.nodes[p].children.contains_key(e));
                        }
                    }
                    assert forall|i: int| 0 <= i < u.free.len() implies (#[trigger] u.free[i])
                        < u.nodes.len() by {
                        assert(u.free[i] == self.free[i]);
                    }
                } else {
                    assert forall|p: int, e: u64|
                        0 <= p < u.nodes.len() && #[trigger] u.nodes[p].children.contains_key(
                            e,
                        ) implies u.nodes[p].children[e] < u.nodes.len() by {
                        assert(self.nodes[p].children.contains_key(e));
                    }
                }
                u.walk_never_shrinks(next, blocks.drop_first(), now);
            }
        }
    }

    /// A walk never needs more slots than there can be: a slot is added only
    /// where none is free and the node budget is not used up.
    pub proof fn walk_fits(self, cur: NodeId, blocks: Seq<u64>, now: R)
        requires
            self.wf(),
            self.live(cur as int),
            self.nodes[cur as int].depth_blocks + blocks.len() <= u64::MAX,
        ensures
            self.observed_path(cur, blocks, now).0.nodes.len() <= usize::MAX,
        decreases blocks.len(),
    {
        if blocks.len() > 0 {
            let b = blocks[0];
            if let Some((s, next)) = self.step(cur, b) {
                let u = s.touched(next, now);
                if self.nodes[cur as int].children.contains_key(b) {
                    assert(self.leads(cur as int, b));
                    assert(self.hangs(next as int));
                } else {
                    self.grown_is_wf(cur, b);
                    assert(s.hangs(next as int));
                }
                s.with_node_is_wf(next as int, u.nodes[next as int]);
                u.walk_fits(next, blocks.drop_first(), now);
            }
        }
    }

    /// A walk records one request at each node that it passes, on top of what was
    /// known of the node, or of nothing where the node is new; of all other nodes
    /// it leaves the traffic as it was.
    #[verifier::rlimit(60)]
    pub proof fn walk_records(self, cur: NodeId, blocks: Seq<u64>, now: R)
        requires
            self.wf(),
            self.live(cur as int),
            self.nodes[cur as int].depth_blocks + blocks.len() <= u64::MAX,
        ensures
            ({
                let (t, path) = self.observed_path(cur, blocks, now);
                &&& forall|k: int|
                    0 <= k < path.len() ==> t.nodes[#[trigger] path[k] as int].stats == (
                    if self.live(path[k] as int) {
                        self.nodes[path[k] as int].stats
                    } else {
                        Traffic::fresh()
                    }).observed(now, self.tau_decay)
                &&& forall|id: int| #[trigger]
                    self.live(id) && !path.contains(id as usize) ==> t.nodes[id].stats
                        == self.nodes[id].stats
            }),
        decreases blocks.len(),
    {
        if blocks.len() > 0 {
            let b = blocks[0];
            let rest = blocks.drop_first();
            if let Some((s, next)) = self.step(cur, b) {
                let u = s.touched(next, now);
                self.step_is_wf(cur, blocks, now);
                if !self.nodes[cur as int].children.contains_key(b) {
                    self.grown_is_wf(cur, b);
                }
                s.with_node_is_wf(next as int, u.nodes[next as int]);
                self.step_keeps(cur, b, now);
                u.walk_records(next, rest, now);
                u.walk_is_kept(next, rest, now);
                let (t, tail) = u.observed_path(next, rest, now);
                let path = self.observed_path(cur, blocks, now).1;
                assert(path =~= seq![next] + tail);
                assert forall|k: int| 0 <= k < tail.len() implies #[trigger] tail[k] != next by {
                    assert(t.passed(
                        tail[k],
                        rest[k],
                        u.nodes[next as int].depth_blocks + k + 1,
                    ));
                    assert(u.live(next as int));
                    assert(u.keeps_node(t, next as int));
                }
                assert(!tail.contains(next));
                assert(u.nodes[next as int].stats == (if self.live(next as int) {
                    self.nodes[next as int].stats
                } else {
                    Traffic::fresh()
                }).observed(now, self.tau_decay));
                assert(t.nodes[next as int].stats == u.nodes[next as int].stats) by {
                    assert(u.live(next as int));
                }
                assert forall|k: int| 0 <= k < path.len() implies t.nodes[
                    #[trigger] path[k] as int
                ].stats == (if self.live(path[k] as int) {
                    self.nodes[path[k] as int].stats
                } else {
                    Traffic::fresh()
                }).observed(now, self.tau_decay) by {
                    if k > 0 {
                        assert(path[k] == tail[k - 1]);
                        let x = tail[k - 1] as int;
                        assert(x != next);
                        assert(u.live(x) == self.live(x));
                    }
                }
                assert forall|id: int| #[trigger] self.live(id) && !path.contains(
                    id as usize,
                ) implies t.nodes[id].stats == self.nodes[id].stats by {
                    assert(path[0] == next);
                    assert(id != next);
                    assert(u.live(id));
                    if tail.contains(id as usize) {
                        let k = choose|k: int| 0 <= k < tail.len() && tail[k] == id as usize;
                        assert(path[k + 1] == id as usize);
                    }
                }
            }
        }
    }

    /// A walk passes nodes of the arena.
    pub proof fn walk_in_range(self, cur: NodeId, blocks: Seq<u64>, now: R)
        requires
            self.wf(),
            self.live(cur as int),
            self.nodes[cur as int].depth_blocks + blocks.len() <= u64::MAX,
        ensures
            forall|x: NodeId| #[trigger]
                self.observed_path(cur, blocks, now).1.contains(x) ==> x < self.observed_path(
                    cur,
                    blocks,
                    now,
                ).0.nodes.len(),
            self.observed_path(cur, blocks, now).0.nodes.len() >= self.nodes.len(),
    {
        self.walk_fits(cur, blocks, now);
        self.walk_is_kept(cur, blocks, now);
        let (t, path) = self.observed_path(cur, blocks, now);
        assert forall|x: NodeId| #[trigger] path.contains(x) implies x < t.nodes.len() by {
            let i = choose|i: int| 0 <= i < path.len() && path[i] == x;
            assert(t.passed(
                path[i],
                blocks[i],
                self.nodes[cur as int].depth_blocks + i + 1,
            ));
        }
    }

    /// A walk keeps the tree and all it held. The nodes it passes are live, lie
    /// one below the other, each on the edge of its block, and are what a
    /// look-up of the same blocks finds afterwards; the nodes that a look-up
    /// would have found before come first among them.
    #[verifier::rlimit(60)]
    pub proof fn walk_is_kept(self, cur: NodeId, blocks: Seq<u64>, now: R)
        requires
            self.wf(),
            self.live(cur as int),
            self.nodes[cur as int].depth_blocks + blocks.len() <= u64::MAX,
        ensures
            ({
                let (t, path) = self.observed_path(cur, blocks, now);
                &&& t.wf()
                &&& self.keeps(t)
                &&& path.len() <= blocks.len()
                &&& forall|i: int|
                    0 <= i < path.len() ==> t.passed(
                        #[trigger] path[i],
                        blocks[i],
                        self.nodes[cur as int].depth_blocks + i + 1,
                    )
                &&& forall|id: int| #[trigger]
                    t.live(id) && !self.live(id) ==> t.nodes[id].depth_blocks
                        <= self.nodes[cur as int].depth_blocks + blocks.len()
                &&& forall|id: int|
                    0 <= id < t.nodes.len() && !t.live(id) ==> id < self.nodes.len()
                        && #[trigger] t.nodes[id] == self.nodes[id]
                &&& t.peeked_path(cur, blocks) == path
                &&& self.peeked_path(cur, blocks).is_prefix_of(path)
                &&& self.alive_count + blocks.len() <= self.max_nodes ==> path.len()
                    == blocks.len()
            }),
        decreases blocks.len(),
    {
        self.walk_fits(cur, blocks, now);
        let (t, path) = self.observed_path(cur, blocks, now);
        if blocks.len() > 0 {
            let b = blocks[0];
            let rest = blocks.drop_first();
            match self.step(cur, b) {
                None => {
                    assert(t.peeked_path(cur, blocks) =~= path);
                },
                Some((s, next)) => {
                    let u = s.touched(next, now);
                    self.step_is_wf(cur, blocks, now);
                    s.with_node_is_wf(next as int, u.nodes[next as int]);
                    self.step_keeps(cur, b, now);
                    u.walk_is_kept(next, rest, now);
                    let (v, tail) = u.observed_path(next, rest, now);
                    self.keeps_chains(u, v);
                    assert(v == t);
                    assert(path == seq![next] + tail);
                    assert(u.nodes[next as int].depth_blocks == self.nodes[cur as int].depth_blocks
                        + 1);
                    assert(u.live(next as int));
                    assert(u.keeps_node(t, next as int));
                    assert(u.nodes[cur as int].children.contains_key(b));
                    assert(u.live(cur as int));
                    assert(u.keeps_node(t, cur as int));
                    assert(t.nodes[cur as int].children.contains_key(b));
                    assert(t.peeked_path(cur, blocks) == seq![next] + t.peeked_path(next, rest));
                    assert forall|i: int| 0 <= i < path.len() implies t.passed(
                        #[trigger] path[i],
                        blocks[i],
                        self.nodes[cur as int].depth_blocks + i + 1,
                    ) by {
                        if i > 0 {
                            assert(path[i] == tail[i - 1]);
                            assert(blocks[i] == rest[i - 1]);
                        } else {
                            assert(u.nodes[next as int].edge == b);
                        }
                    }
                    assert forall|id: int| #[trigger] t.live(id) && !self.live(id) implies
                        t.nodes[id].depth_blocks <= self.nodes[cur as int].depth_blocks
                        + blocks.len() by {
                        if u.live(id) {
                            assert(id == next);
                        }
                    }
                    if self.nodes[cur as int].children.contains_key(b) {
                        self.touch_keeps_walks(next, now, next, rest);
                        assert(self.peeked_path(cur, blocks) == seq![next] + self.peeked_path(
                            next,
                            rest,
                        ));
                        assert(self.peeked_path(cur, blocks).is_prefix_of(path));
                    } else {
                        assert(self.peeked_path(cur, blocks) =~= Seq::empty());
                        assert(self.peeked_path(cur, blocks).is_prefix_of(path));
                    }
                },
            }
        }
    }

    /// What a walk passes beyond the nodes that a look-up would have found
    /// before is new.
    #[verifier::rlimit(60)]
    pub proof fn walk_adds_beyond(self, cur: NodeId, blocks: Seq<u64>, now: R)
        requires
            self.wf(),
            self.live(cur as int),
            self.nodes[cur as int].depth_blocks + blocks.len() <= u64::MAX,
        ensures
            forall|k: int|
                self.peeked_path(cur, blocks).len() <= k < self.observed_path(
                    cur,
                    blocks,
                    now,
                ).1.len() ==> !self.live(
                    #[trigger] self.observed_path(cur, blocks, now).1[k] as int,
                ),
        decreases blocks.len(),
    {
        self.walk_fits(cur, blocks, now);
        if blocks.len() > 0 {
            let b = blocks[0];
            let rest = blocks.drop_first();
            if let Some((s, next)) = self.step(cur, b) {
                let u = s.touched(next, now);
                self.step_is_wf(cur, blocks, now);
                s.with_node_is_wf(next as int, u.nodes[next as int]);
                self.step_keeps(cur, b, now);
                u.walk_adds_beyond(next, rest, now);
                let path = self.observed_path(cur, blocks, now).1;
                let tail = u.observed_path(next, rest, now).1;
                let found = self.peeked_path(cur, blocks);
                if self.nodes[cur as int].children.contains_key(b) {
                    self.touch_keeps_walks(next, now, next, rest);
                    assert(found == seq![next] + self.peeked_path(next, rest));
                } else {
                    self.grown_is_wf(cur, b);
                    assert(found =~= Seq::empty());
                    assert(u.peeked_path(next, rest) =~= Seq::empty());
                }
                assert forall|k: int| found.len() <= k < path.len() implies !self.live(
                    #[trigger] path[k] as int,
                ) by {
                    if k > 0 {
                        assert(path[k] == tail[k - 1]);
                        assert(!u.live(tail[k - 1] as int));
                        if self.live(path[k] as int) {
                            assert(self.keeps_node(u, path[k] as int));
                        }
                    }
                }
            }
        }
    }

    /// Prefix lengths still fit after a walk whose own length in tokens fits.
    pub proof fn walk_is_sized(self, blocks: Seq<u64>, now: R)
        requires
            self.wf(),
            self.sized(),
            blocks.len() <= u64::MAX,
            blocks.len() * self.block_tokens <= u64::MAX,
        ensures
            self.observed_path(0, blocks, now).0.sized(),
            self.fully_sized() ==> self.observed_path(0, blocks, now).0.fully_sized(),
    {
        self.walk_fits(0, blocks, now);
        self.walk_is_kept(0, blocks, now);
        let t = self.observed_path(0, blocks, now).0;
        assert forall|id: int| #[trigger] t.live(id) implies t.tokens(id) <= u64::MAX by {
            if self.live(id) {
                assert(self.keeps_node(t, id));
            } else {
                let d = t.nodes[id].depth_blocks;
                let n = blocks.len();
                let bt = self.block_tokens;
                assert(d <= n);
                assert(d * bt <= n * bt) by (nonlinear_arith)
                    requires
                        d <= n,
                ;
            }
        }
        if self.fully_sized() {
            assert forall|id: int| 0 <= id < t.nodes.len() implies #[trigger] t.tokens(id)
                <= u64::MAX by {
                if !t.live(id) {
                    assert(t.nodes[id] == self.nodes[id]);
                    assert(self.tokens(id) <= u64::MAX);
                }
            }
        }
    }

    /// Whether a walk passed `id` by the block `b`, at the depth `depth`.
    pub open spec fn passed(self, id: NodeId, b: u64, depth: int) -> bool {
        &&& id != 0
        &&& self.live(id as int)
        &&& self.nodes[id as int].edge == b
        &&& self.nodes[id as int].depth_blocks == depth
    }

    /// The first step of a walk leaves a tree, with the node it leads to one
    /// below.
    pub(crate) proof fn step_is_wf(self, cur: NodeId, blocks: Seq<u64>, now: R)
        requires
            self.wf(),
            self.live(cur as int),
            blocks.len() > 0,
            self.nodes[cur as int].depth_blocks < u64::MAX,
            self.step(cur, blocks[0]) is Some,
        ensures
            ({
                let (s, next) = self.step(cur, blocks[0])->0;
                &&& s.wf()
                &&& s.live(next as int)
                &&& s.nodes.len() <= usize::MAX
                &&& next != 0
                &&& next != cur
                &&& s.nodes[next as int].edge == blocks[0]
                &&& s.nodes[next as int].parent == Some(cur)
                &&& s.nodes[next as int].depth_blocks == self.nodes[cur as int].depth_blocks + 1
                &&& s.nodes[cur as int].children.contains_key(blocks[0])
                &&& s.nodes[cur as int].children[blocks[0]] == next
                &&& s.live(cur as int)
                &&& self.nodes[cur as int].children.contains_key(blocks[0]) || (self.free.len() == 0
                    ==> self.nodes.len() < usize::MAX)
            }),
    {
        let b = blocks[0];
        let (s, next) = self.step(cur, b)->0;
        self.wf_is_in_range();
        if self.nodes[cur as int].children.contains_key(b) {
            assert(self.leads(cur as int, b));
            assert(self.hangs(next as int));
        } else {
            self.grown_is_wf(cur, b);
        }
    }

    /// One step of a walk keeps all that the trie held.
    proof fn step_keeps(self, cur: NodeId, b: u64, now: R)
        requires
            self.wf(),
            self.live(cur as int),
            self.step(cur, b) is Some,
            (self.step(cur, b)->0).0.nodes.len() <= usize::MAX,
            self.nodes[cur as int].depth_blocks < u64::MAX,
        ensures
            self.keeps((self.step(cur, b)->0).0.touched((self.step(cur, b)->0).1, now)),
    {
        let (s, next) = self.step(cur, b)->0;
        let u = s.touched(next, now);
        if self.nodes[cur as int].children.contains_key(b) {
            assert(self.leads(cur as int, b));
        } else {
            self.grown_is_wf(cur, b);
        }
        assert forall|id: int| #[trigger] self.live(id) implies self.keeps_node(u, id) by {}
        assert forall|id: int| #[trigger] u.live(id) && !self.live(id) implies new_node(
            u.nodes[id],
        ) by {
            assert(s.live(id));
        }
    }

    /// What one trie keeps of another, a third that keeps it keeps too.
    pub proof fn keeps_chains(self, u: Self, v: Self)
        requires
            self.keeps(u),
            u.keeps(v),
        ensures
            self.keeps(v),
    {
        assert forall|id: int| #[trigger] self.live(id) implies self.keeps_node(v, id) by {
            assert(self.keeps_node(u, id));
            assert(u.live(id));
            assert(u.keeps_node(v, id));
            let n = self.nodes[id];
            let m = v.nodes[id];
            assert forall|b: u64| #[trigger] n.children.contains_key(b) implies
                m.children.contains_key(b) && m.children[b] == n.children[b] by {
                let k = u.nodes[id];
                assert(k.children.contains_key(b));
                assert(k.children[b] == n.children[b]);
                assert(m.children.contains_key(b));
                assert(m.children[b] == k.children[b]);
            }
        }
        assert forall|id: int| #[trigger] v.live(id) && !self.live(id) implies new_node(
            v.nodes[id],
        ) by {
            if u.live(id) {
                assert(u.keeps_node(v, id));
            }
        }
    }

    /// A traversal recorded at one node changes no look-up.
    proof fn touch_keeps_walks(self, id: NodeId, now: R, cur: NodeId, blocks: Seq<u64>)
        requires
            self.wf(),
            self.live(id as int),
            self.live(cur as int),
        ensures
            self.touched(id, now).peeked_path(cur, blocks) == self.peeked_path(cur, blocks),
        decreases blocks.len(),
    {
        if blocks.len() > 0 && self.nodes[cur as int].children.contains_key(blocks[0]) {
            assert(self.leads(cur as int, blocks[0]));
            self.touch_keeps_walks(
                id,
                now,
                self.nodes[cur as int].children[blocks[0]],
                blocks.drop_first(),
            );
        }
    }

    /// A look-up finds nodes of the trie.
    pub proof fn peeked_is_live(self, cur: NodeId, blocks: Seq<u64>)
        requires
            self.wf(),
            self.live(cur as int),
        ensures
            forall|x: NodeId| #[trigger]
                self.peeked_path(cur, blocks).contains(x) ==> self.live(x as int),
        decreases blocks.len(),
    {
        if blocks.len() > 0 && self.nodes[cur as int].children.contains_key(blocks[0]) {
            assert(self.leads(cur as int, blocks[0]));
            let next = self.nodes[cur as int].children[blocks[0]];
            let rest = self.peeked_path(next, blocks.drop_first());
            self.peeked_is_live(next, blocks.drop_first());
            assert forall|x: NodeId| #[trigger]
                self.peeked_path(cur, blocks).contains(x) implies self.live(x as int) by {
                let all = self.peeked_path(cur, blocks);
                let i = choose|i: int| 0 <= i < all.len() && all[i] == x;
                if i > 0 {
                    assert(rest[i - 1] == x);
                    assert(rest.contains(x));
                }
            }
        }
    }

    /// A look-up finds the same nodes for as long as two requests agree.
    pub proof fn peek_shares_prefix(self, cur: NodeId, a: Seq<u64>, b: Seq<u64>, k: nat)
        requires
            k <= a.len(),
            k <= b.len(),
            a.take(k as int) == b.take(k as int),
        ensures
            ({
                let p = self.peeked_path(cur, a);
                let q = self.peeked_path(cur, b);
                &&& p.len() <= q.len() || k <= q.len()
                &&& forall|i: int|
                    0 <= i < k && i < p.len() ==> #[trigger] p[i] == q[i]
            }),
        decreases k,
    {
        if k > 0 {
            assert(a[0] == a.take(k as int)[0]);
            assert(b[0] == b.take(k as int)[0]);
            if self.nodes[cur as int].children.contains_key(a[0]) {
                let next = self.nodes[cur as int].children[a[0]];
                let x = a.drop_first();
                let y = b.drop_first();
                let m = (k - 1) as nat;
                assert(x.take(m as int) =~= a.take(k as int).drop_first());
                assert(y.take(m as int) =~= b.take(k as int).drop_first());
                self.peek_shares_prefix(next, x, y, m);
                let p = self.peeked_path(cur, a);
                let q = self.peeked_path(cur, b);
                assert forall|i: int| 0 <= i < k && i < p.len() implies #[trigger] p[i]
                    == q[i] by {
                    if i > 0 {
                        assert(p[i] == self.peeked_path(next, x)[i - 1]);
                        assert(q[i] == self.peeked_path(next, y)[i - 1]);
                    }
                }
            }
        }
    }

    /// The counts of a walk through a tree nest: no node was passed more often
    /// than the one it hangs from. (The root itself is never counted.)
    pub open spec fn counts_nest(self) -> bool {
        forall|id: int| #[trigger] self.live(id) ==> self.count_nests(id)
    }

    pub open spec fn count_nests(self, id: int) -> bool {
        match self.nodes[id].parent {
            Some(p) => p == 0 || self.nodes[id].stats.raw_count
                <= self.nodes[p as int].stats.raw_count,
            None => true,
        }
    }

    /// Every child of `cur` was passed less often than `cur` itself, but for a
    /// count that has reached its limit.
    spec fn ahead(self, cur: NodeId) -> bool {
        cur == 0 || self.nodes[cur as int].stats.raw_count == u64::MAX || {
            &&& self.nodes[cur as int].stats.raw_count > 0
            &&& forall|id: int| #[trigger]
                self.live(id) && self.nodes[id].parent == Some(cur)
                    ==> self.nodes[id].stats.raw_count < self.nodes[cur as int].stats.raw_count
        }
    }

    /// A request never passes a node more often than the one above it: nested
    /// counts stay nested whatever is observed.
    pub proof fn counts_stay_nested(self, blocks: Seq<u64>, now: R)
        requires
            self.wf(),
            self.counts_nest(),
            blocks.len() <= u64::MAX,
        ensures
            self.observed_path(0, blocks, now).0.counts_nest(),
    {
        self.walk_fits(0, blocks, now);
        self.counts_nest_below(0, blocks, now);
    }

    proof fn counts_nest_below(self, cur: NodeId, blocks: Seq<u64>, now: R)
        requires
            self.wf(),
            self.counts_nest(),
            self.live(cur as int),
            self.ahead(cur),
            self.nodes[cur as int].depth_blocks + blocks.len() <= u64::MAX,
        ensures
            self.observed_path(cur, blocks, now).0.counts_nest(),
        decreases blocks.len(),
    {
        self.walk_fits(cur, blocks, now);
        if blocks.len() > 0 {
            let b = blocks[0];
            let rest = blocks.drop_first();
            if let Some((s, next)) = self.step(cur, b) {
                let u = s.touched(next, now);
                self.step_is_wf(cur, blocks, now);
                if self.nodes[cur as int].children.contains_key(b) {
                    assert(self.live(next as int));
                    assert(self.count_nests(next as int));
                } else {
                    self.grown_is_wf(cur, b);
                }
                s.with_node_is_wf(next as int, u.nodes[next as int]);
                assert forall|id: int| #[trigger] u.live(id) implies u.count_nests(id) by {
                    if id != next {
                        assert(self.live(id));
                        assert(self.count_nests(id));
                        if id != 0 {
                            assert(self.hangs(id));
                        }
                    }
                }
                assert forall|id: int| #[trigger] u.live(id) && u.nodes[id].parent == Some(
                    next,
                ) && u.nodes[next as int].stats.raw_count != u64::MAX && next != 0 implies
                    u.nodes[id].stats.raw_count < u.nodes[next as int].stats.raw_count by {
                    if id == next {
                        assert(u.hangs(id));
                    } else {
                        assert(self.live(id));
                        assert(self.count_nests(id));
                        assert(self.hangs(id));
                        assert(self.live(next as int));
                    }
                }
                assert(u.nodes[next as int].depth_blocks == self.nodes[cur as int].depth_blocks
                    + 1);
                u.counts_nest_below(next, rest, now);
            }
        }
    }

    /// What garbage collection takes is gone for good reason: a node that it
    /// removes was uncached, idle for the minimum time and slower than the
    /// minimum rate. What it leaves keeps all but edges to what was removed.
    pub open spec fn thinned(self, t: Self, now: R, min_lambda: R, min_idle: R) -> bool {
        &&& t.nodes.len() == self.nodes.len()
        &&& t.block_tokens == self.block_tokens
        &&& t.tau_decay == self.tau_decay
        &&& t.max_nodes == self.max_nodes
        &&& t.alive_count <= self.alive_count
        &&& forall|id: int|
            0 <= id < t.nodes.len() ==> self.thinned_node(
                #[trigger] t.nodes[id],
                id,
                now,
                min_lambda,
                min_idle,
            )
    }

    pub open spec fn thinned_node(
        self,
        m: NodeModel<R>,
        id: int,
        now: R,
        min_lambda: R,
        min_idle: R,
    ) -> bool {
        let n = self.nodes[id];
        &&& m == NodeModel { alive: m.alive, children: m.children, ..n }
        &&& m.children.submap_of(n.children)
        &&& m.alive ==> n.alive
        &&& n.alive && !m.alive ==> {
            &&& id != 0
            &&& n.state is Uncached
            &&& min_idle.at_most(now.diff(n.stats.t_last))
            &&& n.stats.decayed_lambda(now, self.tau_decay).below(min_lambda)
        }
    }

    /// Garbage collection removes only uncached, idle, slow nodes and leaves
    /// none that it could remove; the trie stays a tree.
    pub proof fn gc_is_exact(self, now: R, min_lambda: R, min_idle: R)
        requires
            self.wf(),
        ensures
            self.collected(now, min_lambda, min_idle).wf(),
            self.thinned(
                self.collected(now, min_lambda, min_idle),
                now,
                min_lambda,
                min_idle,
            ),
            forall|id: int|
                !#[trigger] self.collected(now, min_lambda, min_idle).cold(
                    id,
                    now,
                    min_lambda,
                    min_idle,
                ),
        decreases self.alive_count,
    {
        let gone = self.cold_leaves(self.nodes.len(), now, min_lambda, min_idle);
        self.cold_leaves_are_cold(self.nodes.len(), now, min_lambda, min_idle);
        self.spare_leaves_are_few(gone);
        let t = self.collected(now, min_lambda, min_idle);
        if gone.len() == 0 {
            assert forall|id: int| !#[trigger] t.cold(id, now, min_lambda, min_idle) by {
                if self.cold(id, now, min_lambda, min_idle) {
                    assert(gone.contains(id as usize));
                }
            }
        } else {
            self.without_is_wf(gone);
            let s = self.without(gone);
            s.gc_is_exact(now, min_lambda, min_idle);
            assert forall|id: int| 0 <= id < t.nodes.len() implies self.thinned_node(
                #[trigger] t.nodes[id],
                id,
                now,
                min_lambda,
                min_idle,
            ) by {
                assert(s.thinned_node(t.nodes[id], id, now, min_lambda, min_idle));
                if gone.contains(id as usize) {
                    let i = choose|i: int| 0 <= i < gone.len() && gone[i] == id as usize;
                    assert(self.cold(gone[i] as int, now, min_lambda, min_idle));
                }
                let m = t.nodes[id];
                assert forall|k: u64| #[trigger] m.children.dom().contains(k) implies
                    self.nodes[id].children.dom().contains(k) && m.children[k]
                    == self.nodes[id].children[k] by {
                    assert(s.nodes[id].children.dom().contains(k));
                }
            }
        }
    }

    /// Whether a node may go as soon as nothing hangs from it: it is not the
    /// root, holds no cache, was idle for the minimum time and is slower than the
    /// minimum rate.
    pub open spec fn chilled(self, id: int, now: R, min_lambda: R, min_idle: R) -> bool {
        let n = self.nodes[id];
        &&& id != 0
        &&& n.state is Uncached
        &&& min_idle.at_most(now.diff(n.stats.t_last))
        &&& n.stats.decayed_lambda(now, self.tau_decay).below(min_lambda)
    }

    /// Whether `x` is a node at or below `id`.
    pub open spec fn lies_under(self, x: int, id: int) -> bool {
        let d = self.nodes[id].depth_blocks;
        &&& self.live(x)
        &&& self.nodes[x].depth_blocks >= d
        &&& self.ancestor(x, d as int) == id
    }

    /// Whether every node at or below `id` may go.
    pub open spec fn all_chilled(self, id: int, now: R, min_lambda: R, min_idle: R) -> bool {
        forall|x: int| #[trigger]
            self.lies_under(x, id) ==> self.chilled(x, now, min_lambda, min_idle)
    }

    /// A node of a subtree that may go as a whole does not stay.
    #[verifier::rlimit(60)]
    proof fn chilled_goes(self, x: int, id: int, now: R, min_lambda: R, min_idle: R)
        requires
            self.wf(),
            self.live(id),
            self.lies_under(x, id),
            self.all_chilled(id, now, min_lambda, min_idle),
        ensures
            !self.collected(now, min_lambda, min_idle).live(x),
        decreases u64::MAX - self.nodes[x].depth_blocks,
    {
        self.gc_is_exact(now, min_lambda, min_idle);
        let t = self.collected(now, min_lambda, min_idle);
        let m = t.nodes[x];
        if t.live(x) {
            assert(self.thinned_node(m, x, now, min_lambda, min_idle));
            if exists|b: u64| m.children.dom().contains(b) {
                let b = choose|b: u64| m.children.dom().contains(b);
                let c = m.children[b] as int;
                assert(t.nodes[x].children.contains_key(b));
                assert(t.leads(x, b));
                assert(self.nodes[x].children.contains_key(b));
                assert(self.leads(x, b));
                assert(self.hangs(c));
                assert(self.nodes[c].parent == Some(x as usize));
                let d = self.nodes[id].depth_blocks as int;
                assert(self.ancestor(c, d) == self.ancestor(x, d));
                assert(self.lies_under(c, id));
                self.chilled_goes(c, id, now, min_lambda, min_idle);
            } else {
                assert(m.children.dom() =~= Set::empty());
                assert(self.chilled(x, now, min_lambda, min_idle));
                assert(t.cold(x, now, min_lambda, min_idle));
            }
        }
    }

    /// What lies at or below a node that went has gone too.
    proof fn what_stays_hangs(self, x: int, id: int, now: R, min_lambda: R, min_idle: R)
        requires
            self.wf(),
            self.live(id),
            self.lies_under(x, id),
            self.collected(now, min_lambda, min_idle).live(x),
        ensures
            self.collected(now, min_lambda, min_idle).live(id),
        decreases self.nodes[x].depth_blocks,
    {
        self.gc_is_exact(now, min_lambda, min_idle);
        let t = self.collected(now, min_lambda, min_idle);
        assert(self.thinned_node(t.nodes[x], x, now, min_lambda, min_idle));
        let d = self.nodes[id].depth_blocks;
        if self.nodes[x].depth_blocks > d {
            assert(x != 0);
            assert(self.hangs(x));
            assert(t.hangs(x));
            let p = self.nodes[x].parent->0 as int;
            assert(self.ancestor(x, d as int) == self.ancestor(p, d as int));
            assert(self.lies_under(p, id));
            self.what_stays_hangs(p, id, now, min_lambda, min_idle);
        }
    }

    /// Garbage collection removes a node exactly where the node and all below it
    /// are uncached, idle and slow.
    pub proof fn gc_takes_cold_subtrees(self, id: int, now: R, min_lambda: R, min_idle: R)
        requires
            self.wf(),
            self.live(id),
        ensures
            !self.collected(now, min_lambda, min_idle).live(id) <==> self.all_chilled(
                id,
                now,
                min_lambda,
                min_idle,
            ),
    {
        self.gc_is_exact(now, min_lambda, min_idle);
        let t = self.collected(now, min_lambda, min_idle);
        assert(self.lies_under(id, id));
        if self.all_chilled(id, now, min_lambda, min_idle) {
            self.chilled_goes(id, id, now, min_lambda, min_idle);
        }
        if !t.live(id) {
            assert forall|x: int| #[trigger] self.lies_under(x, id) implies self.chilled(
                x,
                now,
                min_lambda,
                min_idle,
            ) by {
                if t.live(x) {
                    self.what_stays_hangs(x, id, now, min_lambda, min_idle);
                }
                assert(self.thinned_node(t.nodes[x], x, now, min_lambda, min_idle));
            }
        }
    }

    /// A second garbage collection at the same time removes nothing.
    pub proof fn gc_again_changes_nothing(self, now: R, min_lambda: R, min_idle: R)
        requires
            self.wf(),
        ensures
            ({
                let t = self.collected(now, min_lambda, min_idle);
                t.collected(now, min_lambda, min_idle) == t
            }),
    {
        self.gc_is_exact(now, min_lambda, min_idle);
        let t = self.collected(now, min_lambda, min_idle);
        t.cold_leaves_are_cold(t.nodes.len(), now, min_lambda, min_idle);
        let gone = t.cold_leaves(t.nodes.len(), now, min_lambda, min_idle);
        if gone.len() > 0 {
            assert(t.cold(gone[0] as int, now, min_lambda, min_idle));
        }
    }

    /// Nested counts stay nested through garbage collection.
    pub proof fn gc_keeps_counts_nested(self, now: R, min_lambda: R, min_idle: R)
        requires
            self.wf(),
            self.counts_nest(),
        ensures
            self.collected(now, min_lambda, min_idle).counts_nest(),
    {
        self.gc_is_exact(now, min_lambda, min_idle);
        let t = self.collected(now, min_lambda, min_idle);
        assert forall|id: int| #[trigger] t.live(id) implies t.count_nests(id) by {
            assert(self.thinned_node(t.nodes[id], id, now, min_lambda, min_idle));
            assert(self.live(id));
            assert(self.count_nests(id));
            if id != 0 {
                assert(self.hangs(id));
                let p = self.nodes[id].parent->0 as int;
                assert(self.thinned_node(t.nodes[p], p, now, min_lambda, min_idle));
            }
        }
    }
}

/// A node with nothing known of a cache, nor of lulls.
pub open spec fn new_node<R: Real>(n: NodeModel<R>) -> bool {
    &&& n.state is Uncached
    &&& n.last_flip == R::neg_inf_of()
    &&& n.hold_hint == R::int_of(0)
    &&& n.last_delete == R::neg_inf_of()
    &&& n.lulls == (Lulls { count: 0, total: R::int_of(0), squares: R::int_of(0) })
    &&& !n.ahead
}

/// Requests that begin with the same blocks pass through the same nodes for as
/// long as they agree, and part where they differ.
pub proof fn shared_prefixes_share_nodes<R: Real>(
    t: TrieModel<R>,
    a: Seq<u64>,
    b: Seq<u64>,
    k: nat,
    now: R,
    later: R,
)
    requires
        t.wf(),
        k <= a.len() <= u64::MAX,
        k <= b.len() <= u64::MAX,
        a.take(k as int) == b.take(k as int),
    ensures
        ({
            let (u, p) = t.observed_path(0, a, now);
            let (v, q) = u.observed_path(0, b, later);
            &&& p.len() <= q.len() || k <= q.len()
            &&& forall|i: int| 0 <= i < k && i < p.len() ==> #[trigger] p[i] == q[i]
            &&& forall|i: int|
                0 <= i < p.len() && i < q.len() && a[i] != b[i] ==> #[trigger] p[i] != q[i]
        }),
{
    t.walk_fits(0, a, now);
    t.walk_is_kept(0, a, now);
    t.observed_path(0, a, now).0.walk_fits(0, b, later);
    t.walk_is_kept(0, a, now);
    let (u, p) = t.observed_path(0, a, now);
    u.walk_is_kept(0, b, later);
    let (v, q) = u.observed_path(0, b, later);
    u.peek_shares_prefix(0, a, b, k);
    assert forall|i: int| 0 <= i < k && i < p.len() implies #[trigger] p[i] == q[i] by {
        let r = u.peeked_path(0, b);
        assert(u.peeked_path(0, a)[i] == r[i]);
        assert(r == q.subrange(0, r.len() as int));
    }
    assert forall|i: int| 0 <= i < p.len() && i < q.len() && a[i] != b[i] implies #[trigger] p[i]
        != q[i] by {
        assert(u.passed(p[i], a[i], i + 1));
        assert(v.passed(q[i], b[i], i + 1));
        assert(u.live(p[i] as int));
        assert(u.keeps_node(v, p[i] as int));
    }
}

} // verus!
