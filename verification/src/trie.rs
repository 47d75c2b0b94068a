//! Decayed prefix trie over hashed token blocks: the traffic model.
//!
//! Each outgoing request is chunked into fixed-size token blocks and each block
//! hashed; the hash sequence is inserted as a path. Nodes hold only hashes,
//! decayed counters, and timestamps, **no prompt content**, so the structure is
//! privacy-safe to keep resident or persist.
use std::collections::HashMap;
use vstd::prelude::*;

use crate::number::Real;
use crate::order::{ascending_keys, ascending_keys_are_the_keys, values_by_key};
pub mod laws;
pub mod paths;
pub mod rates;
pub mod shares;

pub use crate::stats::{gap_edges_hours, NodeStats, Traffic};

verus! {

broadcast use vstd::std_specs::hash::group_hash_axioms;

/// Index of a node in the trie arena.
pub type NodeId = usize;

/// Cache state of a trie node, mirroring the provider-side object it stands for.
#[derive(Clone, Copy, Debug, PartialEq)]
pub enum CacheState<R> {
    /// No provider-side cache for this prefix.
    Uncached,
    /// A create was requested but not yet confirmed by the adapter
    /// ([`crate::Engine::confirm_create`]). Micro-batching defers followers
    /// while a node is pending.
    Pending {
        /// When the create action was emitted, hours.
        since_hours: R,
    },
    /// A provider-side cache is (believed) live for this prefix.
    Cached {
        /// When the provider-side entry expires unless extended, hours.
        expires_at_hours: R,
        /// TTL tier the entry was bought at, hours.
        ttl_hours: R,
    },
}

/// The lulls a prefix has come back from: the gaps longer than any hold worth
/// paying for. Lulls of one length predict the next return.
#[derive(Clone, Copy, Debug, PartialEq)]
pub struct Lulls<R> {
    /// How many there were.
    pub count: u64,
    /// The sum of their lengths, hours.
    pub total: R,
    /// The sum of the squares of their lengths.
    pub squares: R,
}

/// One trie node: an edge hash from its parent plus decayed statistics.
#[derive(Clone, Debug)]
pub struct Node<R> {
    /// Block hash on the edge from `parent` to this node.
    pub edge: u64,
    /// Parent node (`None` only for the root).
    pub parent: Option<NodeId>,
    /// Children keyed by edge block hash.
    pub children: HashMap<u64, NodeId>,
    /// Depth in blocks (root = 0).
    pub depth_blocks: u64,
    /// Decayed traffic statistics.
    pub stats: NodeStats<R>,
    /// Provider cache state for the prefix ending at this node.
    pub state: CacheState<R>,
    /// Last time `state` flipped (for hysteresis dwell).
    pub last_flip: R,
    /// Learned idle-hold time for this prefix, hours (0 = use the default
    /// hold). Grown when a delete turns out to have been premature (traffic
    /// returned right after the cache was let go) and decayed back toward the
    /// default otherwise. Lets a prefix with recurring lulls hold through them
    /// without changing the common case.
    pub hold_hint: R,
    /// Time the last cache for this prefix was deleted, hours (negative
    /// infinity if never). Used to detect a premature delete.
    pub last_delete: R,
    /// The lulls this prefix has come back from.
    pub lulls: Lulls<R>,
    /// Whether the last create was made ahead of a request.
    pub ahead: bool,
    /// Whether the node is in the trie; a node that is not waits to be reused.
    pub alive: bool,
}

/// What a node holds.
#[verifier::ext_equal]
pub struct NodeModel<R> {
    pub edge: u64,
    pub parent: Option<NodeId>,
    pub children: Map<u64, NodeId>,
    pub depth_blocks: u64,
    pub stats: Traffic<R>,
    pub state: CacheState<R>,
    pub last_flip: R,
    pub hold_hint: R,
    pub last_delete: R,
    pub lulls: Lulls<R>,
    pub ahead: bool,
    pub alive: bool,
}

impl<R: Real> NodeModel<R> {
    /// A node as it enters the trie.
    pub open spec fn fresh(edge: u64, parent: Option<NodeId>, depth_blocks: u64) -> Self {
        NodeModel {
            edge,
            parent,
            children: Map::empty(),
            depth_blocks,
            stats: Traffic::fresh(),
            state: CacheState::Uncached,
            last_flip: R::neg_inf_of(),
            hold_hint: R::int_of(0),
            last_delete: R::neg_inf_of(),
            lulls: Lulls { count: 0, total: R::int_of(0), squares: R::int_of(0) },
            ahead: false,
            alive: true,
        }
    }
}

impl<R: Real> Node<R> {
    pub open spec fn view(&self) -> NodeModel<R> {
        NodeModel {
            edge: self.edge,
            parent: self.parent,
            children: self.children@,
            depth_blocks: self.depth_blocks,
            stats: self.stats@,
            state: self.state,
            last_flip: self.last_flip,
            hold_hint: self.hold_hint,
            last_delete: self.last_delete,
            lulls: self.lulls,
            ahead: self.ahead,
            alive: self.alive,
        }
    }

    fn fresh(edge: u64, parent: Option<NodeId>, depth_blocks: u64) -> (r: Self)
        ensures
            r@ == NodeModel::<R>::fresh(edge, parent, depth_blocks),
    {
        let zero = R::from_int(0);
        Node {
            edge,
            parent,
            children: HashMap::new(),
            depth_blocks,
            stats: NodeStats::new(),
            state: CacheState::Uncached,
            last_flip: R::neg_infinity(),
            hold_hint: zero,
            last_delete: R::neg_infinity(),
            lulls: Lulls { count: 0, total: zero, squares: zero },
            ahead: false,
            alive: true,
        }
    }
}

/// The decayed prefix trie (arena-allocated).
pub struct PrefixTrie<R> {
    pub(crate) nodes: Vec<Node<R>>,
    pub(crate) free: Vec<NodeId>,
    pub(crate) alive_count: usize,
    /// Tokens per block used when this trie was built. Callers must chunk with
    /// the same block size (see [`crate::chunk`]).
    pub block_tokens: u64,
    /// EWMA decay constant, hours.
    pub tau_decay: R,
    pub(crate) max_nodes: usize,
}

/// What a trie holds: the arena, the slots free for reuse with the next one to
/// be taken last, and the limits it was made with.
#[verifier::ext_equal]
pub struct TrieModel<R> {
    pub nodes: Seq<NodeModel<R>>,
    pub free: Seq<NodeId>,
    pub alive_count: nat,
    pub block_tokens: u64,
    pub tau_decay: R,
    pub max_nodes: usize,
}

impl<R: Real> TrieModel<R> {
    /// The trie of the empty prefix alone.
    pub open spec fn root_only(block_tokens: u64, tau_decay: R, max_nodes: usize) -> Self {
        TrieModel {
            nodes: seq![NodeModel::fresh(0, None, 0)],
            free: Seq::empty(),
            alive_count: 1,
            block_tokens,
            tau_decay,
            max_nodes,
        }
    }

    /// Whether `id` names a node of the trie.
    pub open spec fn live(self, id: int) -> bool {
        0 <= id < self.nodes.len() && self.nodes[id].alive
    }

    /// Every node but the root hangs from a node of the trie by its edge.
    pub open spec fn hangs(self, id: int) -> bool {
        let n = self.nodes[id];
        &&& n.parent is Some
        &&& self.live(n.parent->0 as int)
        &&& self.nodes[n.parent->0 as int].children.contains_key(n.edge)
        &&& self.nodes[n.parent->0 as int].children[n.edge] == id
        &&& n.depth_blocks == self.nodes[n.parent->0 as int].depth_blocks + 1
    }

    /// The edge `b` of the node `p` leads to a node that hangs from it.
    pub open spec fn leads(self, p: int, b: u64) -> bool {
        let c = self.nodes[p].children[b] as int;
        &&& c != 0
        &&& self.live(c)
        &&& self.nodes[c].parent == Some(p as usize)
        &&& self.nodes[c].edge == b
    }

    /// The trie is a tree over its live nodes, every slot that is not live is
    /// free, and the node budget is kept.
    pub open spec fn wf(self) -> bool {
        &&& self.nodes.len() <= usize::MAX
        &&& self.live(0)
        &&& self.nodes[0].parent is None
        &&& self.nodes[0].depth_blocks == 0
        &&& forall|id: int|
            0 <= id < self.nodes.len() ==> (#[trigger] self.nodes[id]).children.dom().finite()
        &&& forall|id: int| id != 0 && #[trigger] self.live(id) ==> self.hangs(id)
        &&& forall|p: int, b: u64|
            0 <= p < self.nodes.len() && #[trigger] self.nodes[p].children.contains_key(b)
                ==> self.nodes[p].alive && self.leads(p, b)
        &&& forall|id: int|
            0 <= id < self.nodes.len() && !(#[trigger] self.nodes[id]).alive
                ==> self.nodes[id].state is Uncached && self.free.contains(id as usize)
        &&& forall|i: int|
            0 <= i < self.free.len() ==> (#[trigger] self.free[i]) < self.nodes.len()
                && !self.nodes[self.free[i] as int].alive
        &&& self.free.no_duplicates()
        &&& self.alive_count + self.free.len() == self.nodes.len()
        &&& self.alive_count <= 1 || self.alive_count <= self.max_nodes
    }

    /// Prefix length in tokens at `id`.
    pub open spec fn tokens(self, id: int) -> int {
        self.nodes[id].depth_blocks * self.block_tokens
    }

    /// Every prefix has a length in tokens that fits.
    pub open spec fn sized(self) -> bool {
        forall|id: int| #[trigger] self.live(id) ==> self.tokens(id) <= u64::MAX
    }

    /// Every prefix, also one that waits to be reused, has a length in tokens that
    /// fits.
    pub open spec fn fully_sized(self) -> bool {
        forall|id: int| 0 <= id < self.nodes.len() ==> #[trigger] self.tokens(id) <= u64::MAX
    }

    /// The node `id` replaced.
    pub open spec fn with_node(self, id: int, n: NodeModel<R>) -> Self {
        TrieModel { nodes: self.nodes.update(id, n), ..self }
    }

    /// The slot that the next new node takes.
    pub open spec fn slot(self) -> NodeId {
        if self.free.len() > 0 {
            self.free.last()
        } else {
            self.nodes.len() as usize
        }
    }

    /// A new node under `cur`, at the edge `b`.
    pub open spec fn grown(self, cur: NodeId, b: u64) -> Self {
        let n = NodeModel::fresh(b, Some(cur), (self.nodes[cur as int].depth_blocks + 1) as u64);
        let nodes = if self.free.len() > 0 {
            self.nodes.update(self.slot() as int, n)
        } else {
            self.nodes.push(n)
        };
        let up = nodes[cur as int];
        TrieModel {
            nodes: nodes.update(
                cur as int,
                NodeModel { children: up.children.insert(b, self.slot()), ..up },
            ),
            free: if self.free.len() > 0 {
                self.free.drop_last()
            } else {
                self.free
            },
            alive_count: self.alive_count + 1,
            ..self
        }
    }

    /// A traversal of `id` recorded.
    pub open spec fn touched(self, id: NodeId, now: R) -> Self {
        let n = self.nodes[id as int];
        self.with_node(id as int, NodeModel { stats: n.stats.observed(now, self.tau_decay), ..n })
    }

    /// One step down from `cur` by the block `b`: the trie with the node it
    /// leads to, which is new where the block was not seen here before; `None`
    /// where it would be new and the budget is used up.
    pub open spec fn step(self, cur: NodeId, b: u64) -> Option<(Self, NodeId)> {
        if self.nodes[cur as int].children.contains_key(b) {
            Some((self, self.nodes[cur as int].children[b]))
        } else if self.alive_count >= self.max_nodes {
            None
        } else {
            Some((self.grown(cur, b), self.slot()))
        }
    }

    /// The trie, and the nodes passed, once `blocks` have been walked down from
    /// `cur` at `now`.
    pub open spec fn observed_path(self, cur: NodeId, blocks: Seq<u64>, now: R) -> (
        Self,
        Seq<NodeId>,
    )
        decreases blocks.len(),
    {
        if blocks.len() == 0 {
            (self, Seq::empty())
        } else {
            match self.step(cur, blocks[0]) {
                None => (self, Seq::empty()),
                Some((t, next)) => {
                    let r = t.touched(next, now).observed_path(next, blocks.drop_first(), now);
                    (r.0, seq![next] + r.1)
                },
            }
        }
    }

    /// The known nodes that `blocks` lead through from `cur`.
    pub open spec fn peeked_path(self, cur: NodeId, blocks: Seq<u64>) -> Seq<NodeId>
        decreases blocks.len(),
    {
        if blocks.len() == 0 || !self.nodes[cur as int].children.contains_key(blocks[0]) {
            Seq::empty()
        } else {
            let next = self.nodes[cur as int].children[blocks[0]];
            seq![next] + self.peeked_path(next, blocks.drop_first())
        }
    }

    /// The children of `id` in ascending order of their edges.
    pub open spec fn children_sorted(self, id: int) -> Seq<NodeId> {
        let kids = self.nodes[id].children;
        ascending_keys(kids.dom()).map_values(|b: u64| kids[b])
    }

    /// Whether `id` is a cold leaf: an uncached leaf idle for at least
    /// `min_idle` hours whose rate has fallen below `min_lambda`.
    pub open spec fn cold(self, id: int, now: R, min_lambda: R, min_idle: R) -> bool {
        let n = self.nodes[id];
        &&& 1 <= id < self.nodes.len()
        &&& n.alive
        &&& n.children.dom().is_empty()
        &&& n.state is Uncached
        &&& min_idle.at_most(now.diff(n.stats.t_last))
        &&& n.stats.decayed_lambda(now, self.tau_decay).below(min_lambda)
    }

    /// The cold leaves among the first `upto` slots, in ascending order.
    pub open spec fn cold_leaves(self, upto: nat, now: R, min_lambda: R, min_idle: R) -> Seq<NodeId>
        decreases upto,
    {
        if upto == 0 {
            Seq::empty()
        } else {
            let before = self.cold_leaves((upto - 1) as nat, now, min_lambda, min_idle);
            if self.cold(upto - 1, now, min_lambda, min_idle) {
                before.push((upto - 1) as usize)
            } else {
                before
            }
        }
    }

    /// The trie without the leaves `gone`, whose slots become free in this
    /// order.
    pub open spec fn without(self, gone: Seq<NodeId>) -> Self {
        TrieModel {
            nodes: self.nodes.map(
                |id: int, n: NodeModel<R>|
                    NodeModel {
                        alive: n.alive && !gone.contains(id as usize),
                        children: n.children.restrict(
                            Set::new(|b: u64| !gone.contains(n.children[b])),
                        ),
                        ..n
                    },
            ),
            free: self.free + gone,
            alive_count: (self.alive_count - gone.len()) as nat,
            ..self
        }
    }

    /// The trie once cold leaves have been removed for as long as there are
    /// any.
    pub open spec fn collected(self, now: R, min_lambda: R, min_idle: R) -> Self
        decreases self.alive_count,
    {
        let gone = self.cold_leaves(self.nodes.len(), now, min_lambda, min_idle);
        if gone.len() == 0 || gone.len() > self.alive_count {
            self
        } else {
            self.without(gone).collected(now, min_lambda, min_idle)
        }
    }
}

impl<R: Real> TrieModel<R> {
    /// A new node leaves a tree.
    pub proof fn grown_is_wf(self, cur: NodeId, b: u64)
        requires
            self.wf(),
            self.live(cur as int),
            !self.nodes[cur as int].children.contains_key(b),
            self.alive_count < self.max_nodes,
            self.free.len() == 0 ==> self.nodes.len() < usize::MAX,
            self.nodes[cur as int].depth_blocks < u64::MAX,
        ensures
            self.grown(cur, b).wf(),
            self.grown(cur, b).live(self.slot() as int),
            self.slot() != 0,
            self.slot() != cur,
            !self.live(self.slot() as int),
            self.grown(cur, b).nodes.len() >= self.nodes.len(),
            self.grown(cur, b).nodes[self.slot() as int] == NodeModel::<R>::fresh(
                b,
                Some(cur),
                (self.nodes[cur as int].depth_blocks + 1) as u64,
            ),
            self.grown(cur, b).nodes[cur as int] == (NodeModel {
                children: self.nodes[cur as int].children.insert(b, self.slot()),
                ..self.nodes[cur as int]
            }),
            forall|id: int|
                0 <= id < self.nodes.len() && id != cur && id != self.slot() ==> self.grown(
                    cur,
                    b,
                ).nodes[id] == #[trigger] self.nodes[id],
    {
        let g = self.grown(cur, b);
        let slot = self.slot();
        if self.free.len() > 0 {
            assert(self.free[self.free.len() - 1] == slot);
            assert(!self.nodes[slot as int].alive);
        }
        assert forall|id: int| id != 0 && #[trigger] g.live(id) implies g.hangs(id) by {
            if id != slot {
                assert(self.live(id));
                assert(self.hangs(id));
                let p = self.nodes[id].parent->0;
                assert(p != slot);
            }
        }
        assert forall|p: int, e: u64|
            0 <= p < g.nodes.len() && #[trigger] g.nodes[p].children.contains_key(
                e,
            ) implies g.nodes[p].alive && g.leads(p, e) by {
            if p == slot {
            } else if p == cur && e == b {
            } else {
                assert(self.nodes[p].children.contains_key(e));
                assert(self.leads(p, e));
                let c = self.nodes[p].children[e] as int;
                assert(c != slot);
            }
        }
        assert forall|id: int| 0 <= id < g.nodes.len() && !(#[trigger] g.nodes[id]).alive implies
            g.nodes[id].state is Uncached && g.free.contains(id as usize) by {
            assert(id != slot);
            assert(!self.nodes[id].alive);
            assert(self.free.contains(id as usize));
            let i = choose|i: int| 0 <= i < self.free.len() && self.free[i] == id as usize;
            assert(g.free[i] == id as usize);
        }
        assert forall|i: int| 0 <= i < g.free.len() implies (#[trigger] g.free[i]) < g.nodes.len()
            && !g.nodes[g.free[i] as int].alive by {
            assert(g.free[i] == self.free[i]);
            assert(self.free[i] != slot);
        }
        assert(g.free.no_duplicates());
    }

    /// Every child in the sorted list hangs from its parent.
    pub proof fn sorted_child_hangs(self, id: int, i: int)
        requires
            self.wf(),
            self.live(id),
            0 <= i < self.children_sorted(id).len(),
        ensures
            ({
                let c = self.children_sorted(id)[i] as int;
                &&& c != 0
                &&& self.live(c)
                &&& self.nodes[c].parent == Some(id as usize)
                &&& self.nodes[c].depth_blocks == self.nodes[id].depth_blocks + 1
            }),
    {
        let kids = self.nodes[id].children;
        ascending_keys_are_the_keys(kids.dom());
        let b = ascending_keys(kids.dom())[i];
        assert(ascending_keys(kids.dom()).contains(b));
        assert(kids.contains_key(b));
        assert(self.leads(id, b));
        assert(self.hangs(kids[b] as int));
    }

    /// A child has no fewer tokens than its parent.
    pub proof fn child_is_longer(self, id: int, kid: int)
        requires
            self.nodes[kid].depth_blocks == self.nodes[id].depth_blocks + 1,
        ensures
            self.tokens(id) <= self.tokens(kid),
    {
        let d = self.nodes[id].depth_blocks;
        let n = self.block_tokens;
        assert(d * n <= (d + 1) * n) by (nonlinear_arith)
            requires
                n >= 0,
        ;
    }

    /// Another state of a node's own leaves a tree.
    pub proof fn with_node_is_wf(self, id: int, n: NodeModel<R>)
        requires
            self.wf(),
            0 <= id < self.nodes.len(),
            n.edge == self.nodes[id].edge,
            n.parent == self.nodes[id].parent,
            n.children == self.nodes[id].children,
            n.depth_blocks == self.nodes[id].depth_blocks,
            n.alive == self.nodes[id].alive,
            n.alive || n.state is Uncached,
        ensures
            self.with_node(id, n).wf(),
    {
        let g = self.with_node(id, n);
        assert forall|k: int| k != 0 && #[trigger] g.live(k) implies g.hangs(k) by {
            assert(self.live(k));
            assert(self.hangs(k));
        }
        assert forall|p: int, e: u64|
            0 <= p < g.nodes.len() && #[trigger] g.nodes[p].children.contains_key(
                e,
            ) implies g.nodes[p].alive && g.leads(p, e) by {
            assert(self.nodes[p].children.contains_key(e));
            assert(self.leads(p, e));
        }
        assert forall|k: int| 0 <= k < g.nodes.len() && !(#[trigger] g.nodes[k]).alive implies
            g.nodes[k].state is Uncached && g.free.contains(k as usize) by {
            assert(!self.nodes[k].alive);
        }
        assert forall|i: int| 0 <= i < g.free.len() implies (#[trigger] g.free[i]) < g.nodes.len()
            && !g.nodes[g.free[i] as int].alive by {
            assert(!self.nodes[self.free[i] as int].alive);
        }
    }
}

/// Distinct numbers from 1 up to `n` are fewer than `n`.
proof fn distinct_below(s: Seq<NodeId>, n: nat)
    requires
        n >= 1,
        s.no_duplicates(),
        forall|i: int| 0 <= i < s.len() ==> 1 <= #[trigger] s[i] < n,
    ensures
        s.len() < n,
{
    let t = s.map_values(|x: NodeId| x as int);
    assert(t.no_duplicates());
    t.unique_seq_to_set();
    vstd::set_lib::lemma_int_range(1, n as int);
    assert(t.to_set().subset_of(vstd::set_lib::set_int_range(1, n as int)));
    vstd::set_lib::lemma_len_subset(t.to_set(), vstd::set_lib::set_int_range(1, n as int));
}

impl<R: Real> TrieModel<R> {
    /// Leaves that can be removed together: distinct, not the root, uncached.
    pub open spec fn spare(self, gone: Seq<NodeId>) -> bool {
        &&& gone.no_duplicates()
        &&& forall|i: int| 0 <= i < gone.len() ==> self.is_spare(#[trigger] gone[i] as int)
    }

    /// An uncached leaf.
    pub open spec fn is_spare(self, id: int) -> bool {
        &&& id != 0
        &&& self.live(id)
        &&& self.nodes[id].children.dom().is_empty()
        &&& self.nodes[id].state is Uncached
    }

    /// The cold leaves are the ids that are cold, each once, in ascending order.
    pub proof fn cold_leaves_are_cold(self, upto: nat, now: R, min_lambda: R, min_idle: R)
        requires
            self.wf(),
            upto <= self.nodes.len(),
        ensures
            self.spare(self.cold_leaves(upto, now, min_lambda, min_idle)),
            forall|i: int|
                0 <= i < self.cold_leaves(upto, now, min_lambda, min_idle).len() ==> {
                    let id = #[trigger] self.cold_leaves(upto, now, min_lambda, min_idle)[i];
                    id < upto && self.cold(id as int, now, min_lambda, min_idle)
                },
            forall|id: int|
                0 <= id < upto && #[trigger] self.cold(id, now, min_lambda, min_idle)
                    ==> self.cold_leaves(upto, now, min_lambda, min_idle).contains(id as usize),
        decreases upto,
    {
        if upto > 0 {
            let prev = (upto - 1) as nat;
            self.cold_leaves_are_cold(prev, now, min_lambda, min_idle);
            let before = self.cold_leaves(prev, now, min_lambda, min_idle);
            let all = self.cold_leaves(upto, now, min_lambda, min_idle);
            assert forall|id: int|
                0 <= id < upto && #[trigger] self.cold(id, now, min_lambda, min_idle) implies
                all.contains(id as usize) by {
                if id < prev {
                    assert(before.contains(id as usize));
                    let i = choose|i: int| 0 <= i < before.len() && before[i] == id as usize;
                    assert(all[i] == id as usize);
                } else {
                    assert(all[before.len() as int] == id as usize);
                }
            }
        }
    }

    /// There are fewer spare leaves than live nodes: the root is none.
    pub proof fn spare_leaves_are_few(self, gone: Seq<NodeId>)
        requires
            self.wf(),
            self.spare(gone),
        ensures
            gone.len() < self.alive_count,
    {
        let all = self.free + gone;
        assert forall|i: int, j: int| 0 <= i < all.len() && 0 <= j < all.len() && i != j implies
            all[i] != all[j] by {
            if i < self.free.len() {
                assert(!self.nodes[self.free[i] as int].alive);
            } else {
                assert(self.is_spare(gone[i - self.free.len()] as int));
            }
            if j < self.free.len() {
                assert(!self.nodes[self.free[j] as int].alive);
            } else {
                assert(self.is_spare(gone[j - self.free.len()] as int));
            }
        }
        assert forall|i: int| 0 <= i < all.len() implies 1 <= #[trigger] all[i]
            < self.nodes.len() by {
            if i < self.free.len() {
                assert(!self.nodes[self.free[i] as int].alive);
            } else {
                assert(self.is_spare(gone[i - self.free.len()] as int));
            }
        }
        distinct_below(all, self.nodes.len());
    }

    /// One more leaf removed takes one edge from its parent, and nothing from
    /// any other node.
    proof fn lost_one(self, gone: Seq<NodeId>, id: NodeId, q: int)
        requires
            self.wf(),
            self.spare(gone),
            self.is_spare(id as int),
            !gone.contains(id),
            0 <= q < self.nodes.len(),
        ensures
            ({
                let was = self.without(gone).nodes[q];
                self.without(gone.push(id)).nodes[q] == NodeModel {
                    alive: was.alive && q != id,
                    children: if self.nodes[id as int].parent == Some(q as usize) {
                        was.children.remove(self.nodes[id as int].edge)
                    } else {
                        was.children
                    },
                    ..was
                }
            }),
    {
        let was = self.without(gone).nodes[q];
        let now = self.without(gone.push(id)).nodes[q];
        let more = gone.push(id);
        assert forall|x: NodeId| more.contains(x) <==> x == id || gone.contains(x) by {
            if more.contains(x) {
                let i = choose|i: int| 0 <= i < more.len() && more[i] == x;
                if i < gone.len() {
                    assert(gone[i] == x);
                }
            }
            if x == id {
                assert(more[gone.len() as int] == x);
            }
            if gone.contains(x) {
                let i = choose|i: int| 0 <= i < gone.len() && gone[i] == x;
                assert(more[i] == x);
            }
        }
        assert(self.hangs(id as int));
        let then = if self.nodes[id as int].parent == Some(q as usize) {
            was.children.remove(self.nodes[id as int].edge)
        } else {
            was.children
        };
        assert forall|b: u64| now.children.contains_key(b) <==> then.contains_key(b) by {
            if self.nodes[q].children.contains_key(b) {
                assert(self.leads(q, b));
            }
        }
        assert(now.children =~= then);
    }

    /// Spare leaves removed leave a tree.
    pub proof fn without_is_wf(self, gone: Seq<NodeId>)
        requires
            self.wf(),
            self.spare(gone),
        ensures
            self.without(gone).wf(),
            self.without(gone).alive_count == self.alive_count - gone.len(),
    {
        self.spare_leaves_are_few(gone);
        let g = self.without(gone);
        if gone.contains(0) {
            let i = choose|i: int| 0 <= i < gone.len() && gone[i] == 0;
            assert(self.is_spare(gone[i] as int));
        }
        assert forall|id: int| 0 <= id < g.nodes.len() implies (
        #[trigger] g.nodes[id]).children.dom().finite() by {
            assert(self.nodes[id].children.dom().finite());
            assert(g.nodes[id].children.dom().subset_of(self.nodes[id].children.dom()));
            vstd::set_lib::lemma_len_subset(
                g.nodes[id].children.dom(),
                self.nodes[id].children.dom(),
            );
        }
        assert forall|id: int| id != 0 && #[trigger] g.live(id) implies g.hangs(id) by {
            assert(self.live(id));
            assert(self.hangs(id));
            let p = self.nodes[id].parent->0;
            if gone.contains(p) {
                let i = choose|i: int| 0 <= i < gone.len() && gone[i] == p;
                assert(self.is_spare(gone[i] as int));
                assert(self.nodes[p as int].children.dom().contains(self.nodes[id].edge));
            }
        }
        assert forall|p: int, e: u64|
            0 <= p < g.nodes.len() && #[trigger] g.nodes[p].children.contains_key(
                e,
            ) implies g.nodes[p].alive && g.leads(p, e) by {
            assert(self.nodes[p].children.contains_key(e));
            assert(self.leads(p, e));
            if gone.contains(p as usize) {
                let i = choose|i: int| 0 <= i < gone.len() && gone[i] == p as usize;
                assert(self.is_spare(gone[i] as int));
                assert(self.nodes[p].children.dom().contains(e));
            }
        }
        assert forall|id: int| 0 <= id < g.nodes.len() && !(#[trigger] g.nodes[id]).alive implies
            g.nodes[id].state is Uncached && g.free.contains(id as usize) by {
            if gone.contains(id as usize) {
                let i = choose|i: int| 0 <= i < gone.len() && gone[i] == id as usize;
                assert(self.is_spare(gone[i] as int));
                assert(g.free[self.free.len() + i] == id as usize);
            } else {
                assert(!self.nodes[id].alive);
                let i = choose|i: int| 0 <= i < self.free.len() && self.free[i] == id as usize;
                assert(g.free[i] == id as usize);
            }
        }
        assert forall|i: int| 0 <= i < g.free.len() implies (#[trigger] g.free[i]) < g.nodes.len()
            && !g.nodes[g.free[i] as int].alive by {
            if i < self.free.len() {
                assert(!self.nodes[self.free[i] as int].alive);
            } else {
                let k = i - self.free.len();
                assert(self.is_spare(gone[k] as int));
                assert(gone.contains(gone[k]));
            }
        }
        assert forall|i: int, j: int|
            0 <= i < g.free.len() && 0 <= j < g.free.len() && i != j implies g.free[i]
            != g.free[j] by {
            if i < self.free.len() {
                assert(!self.nodes[self.free[i] as int].alive);
            } else {
                assert(self.is_spare(gone[i - self.free.len()] as int));
            }
            if j < self.free.len() {
                assert(!self.nodes[self.free[j] as int].alive);
            } else {
                assert(self.is_spare(gone[j - self.free.len()] as int));
            }
        }
    }
}

impl<R: Real> PrefixTrie<R> {
    /// The root node id (empty prefix).
    pub const ROOT: NodeId = 0;

    pub open(crate) spec fn view(&self) -> TrieModel<R> {
        TrieModel {
            nodes: self.nodes@.map_values(|n: Node<R>| n@),
            free: self.free@,
            alive_count: self.alive_count as nat,
            block_tokens: self.block_tokens,
            tau_decay: self.tau_decay,
            max_nodes: self.max_nodes,
        }
    }

    /// Whether the trie is a tree within its budget; see [`TrieModel::wf`].
    pub open spec fn wf(&self) -> bool {
        self@.wf()
    }

    /// Create an empty trie. `max_nodes` bounds memory: once reached, new
    /// (previously unseen) suffix nodes are simply not materialized.
    pub fn new(block_tokens: u64, tau_decay: R, max_nodes: usize) -> (r: Self)
        ensures
            r.wf(),
            r@ == TrieModel::root_only(block_tokens, tau_decay, max_nodes),
    {
        let mut nodes: Vec<Node<R>> = Vec::new();
        nodes.push(Node::fresh(0, None, 0));
        let r = PrefixTrie {
            nodes,
            free: Vec::new(),
            alive_count: 1,
            block_tokens,
            tau_decay,
            max_nodes,
        };
        assert(r@ =~= TrieModel::root_only(block_tokens, tau_decay, max_nodes));
        r
    }

    /// Number of live nodes (including the root).
    pub fn len(&self) -> (r: usize)
        ensures
            r == self@.alive_count,
    {
        self.alive_count
    }

    /// True when only the root exists.
    pub fn is_empty(&self) -> (r: bool)
        ensures
            r == (self@.alive_count <= 1),
    {
        self.alive_count <= 1
    }

    /// Insert/traverse `blocks` as a path from the root at time `now`, updating
    /// each traversed node's statistics. Returns the node ids along the path
    /// (may be shorter than `blocks` if the node budget is exhausted).
    pub fn observe_path(&mut self, blocks: &[u64], now: R) -> (path: Vec<NodeId>)
        requires
            old(self).wf(),
        ensures
            final(self).wf(),
            (final(self)@, path@) == old(self)@.observed_path(0, blocks@, now),
    {
        let mut path: Vec<NodeId> = Vec::with_capacity(blocks.len());
        let mut cur: NodeId = Self::ROOT;
        let ghost start = self@;
        let mut i: usize = 0;
        assert(blocks@.skip(0) =~= blocks@);
        assert(path@ + start.observed_path(0, blocks@, now).1 =~= start.observed_path(
            0,
            blocks@,
            now,
        ).1);
        while i < blocks.len()
            invariant_except_break
                self@.live(cur as int),
                self@.nodes[cur as int].depth_blocks == i,
                start.observed_path(0, blocks@, now).0 == self@.observed_path(
                    cur,
                    blocks@.skip(i as int),
                    now,
                ).0,
                start.observed_path(0, blocks@, now).1 == path@ + self@.observed_path(
                    cur,
                    blocks@.skip(i as int),
                    now,
                ).1,
            invariant
                i <= blocks.len(),
                self.wf(),
            ensures
                self.wf(),
                (self@, path@) == start.observed_path(0, blocks@, now),
            decreases blocks.len() - i,
        {
            let b: u64 = blocks[i];
            let ghost here = self@;
            let ghost rest = blocks@.skip(i as int);
            assert(rest[0] == b);
            assert(rest.drop_first() =~= blocks@.skip(i + 1));
            let next: NodeId = match self.nodes[cur].children.get(&b) {
                Some(id) => *id,
                None => {
                    if self.alive_count >= self.max_nodes {
                        assert(path@ + Seq::<NodeId>::empty() =~= path@);
                        break;
                    }
                    let depth: u64 = self.nodes[cur].depth_blocks + 1;
                    let node = Node::fresh(b, Some(cur), depth);
                    let id: NodeId = match self.free.pop() {
                        Some(slot) => {
                            self.nodes[slot] = node;
                            slot
                        },
                        None => {
                            self.nodes.push(node);
                            self.nodes.len() - 1
                        },
                    };
                    self.alive_count = self.alive_count + 1;
                    self.nodes[cur].children.insert(b, id);
                    proof {
                        assert(self@ =~= here.grown(cur, b));
                        here.grown_is_wf(cur, b);
                    }
                    id
                },
            };
            let ghost there = self@;
            assert(here.step(cur, b) == Some((there, next)));
            self.nodes[next].stats.observe(now, self.tau_decay);
            proof {
                assert(self@ =~= there.touched(next, now));
                there.with_node_is_wf(next as int, self@.nodes[next as int]);
                let tail = self@.observed_path(next, rest.drop_first(), now);
                assert((path@ + (seq![next] + tail.1)) =~= path@.push(next) + tail.1);
            }
            path.push(next);
            cur = next;
            i = i + 1;
            proof {
                if i == blocks.len() {
                    assert(blocks@.skip(i as int) =~= Seq::empty());
                    assert(path@ + Seq::<NodeId>::empty() =~= path@);
                }
            }
        }
        path
    }

    /// Read-only path lookup: walk `blocks` from the root without recording a
    /// traversal or materializing nodes. Stops at the first unseen block.
    /// Used for cost quotes (e.g. cross-provider routing) that must not
    /// pollute the traffic statistics.
    pub fn peek_path(&self, blocks: &[u64]) -> (path: Vec<NodeId>)
        requires
            self.wf(),
        ensures
            path@ == self@.peeked_path(0, blocks@),
            forall|i: int| 0 <= i < path@.len() ==> self@.live(#[trigger] path@[i] as int),
    {
        let mut path: Vec<NodeId> = Vec::new();
        let mut cur: NodeId = Self::ROOT;
        let mut i: usize = 0;
        assert(blocks@.skip(0) =~= blocks@);
        assert(path@ + self@.peeked_path(0, blocks@) =~= self@.peeked_path(0, blocks@));
        while i < blocks.len()
            invariant_except_break
                self@.live(cur as int),
                self@.peeked_path(0, blocks@) == path@ + self@.peeked_path(
                    cur,
                    blocks@.skip(i as int),
                ),
            invariant
                i <= blocks.len(),
                self.wf(),
                forall|k: int| 0 <= k < path@.len() ==> self@.live(#[trigger] path@[k] as int),
            ensures
                path@ == self@.peeked_path(0, blocks@),
            decreases blocks.len() - i,
        {
            let b: u64 = blocks[i];
            let ghost rest = blocks@.skip(i as int);
            assert(rest[0] == b);
            assert(rest.drop_first() =~= blocks@.skip(i + 1));
            match self.nodes[cur].children.get(&b) {
                Some(id) => {
                    let ghost tail = self@.peeked_path(*id, rest.drop_first());
                    assert((path@ + (seq![*id] + tail)) =~= path@.push(*id) + tail);
                    assert(self@.nodes[cur as int].children.contains_key(b));
                    assert(self@.leads(cur as int, b));
                    path.push(*id);
                    cur = *id;
                },
                None => {
                    assert(path@ + Seq::<NodeId>::empty() =~= path@);
                    break;
                },
            }
            i = i + 1;
            proof {
                if i == blocks.len() {
                    assert(path@ + Seq::<NodeId>::empty() =~= path@);
                }
            }
        }
        path
    }

    /// Prefix length in tokens at `id`.
    pub fn tokens(&self, id: NodeId) -> (r: u64)
        requires
            id < self@.nodes.len(),
            self@.tokens(id as int) <= u64::MAX,
        ensures
            r == self@.tokens(id as int),
    {
        self.nodes[id].depth_blocks * self.block_tokens
    }

    /// Immutable node access.
    pub fn node(&self, id: NodeId) -> (r: &Node<R>)
        requires
            id < self@.nodes.len(),
        ensures
            r@ == self@.nodes[id as int],
    {
        &self.nodes[id]
    }

    /// Mutable node access. The trie stays a tree where the caller leaves the
    /// node's links as they are ([`TrieModel::with_node_is_wf`]).
    pub fn node_mut(&mut self, id: NodeId) -> (r: &mut Node<R>)
        requires
            id < old(self)@.nodes.len(),
        ensures
            r@ == old(self)@.nodes[id as int],
            final(self)@ == old(self)@.with_node(id as int, final(r)@),
    {
        let ghost before = self@;
        let r = &mut self.nodes[id];
        proof {
            assert(after_borrow(self)@.nodes =~= before.nodes.update(id as int, final(r)@));
        }
        r
    }

    /// Child ids of `id`, sorted by edge hash for determinism.
    pub fn children_sorted(&self, id: NodeId) -> (r: Vec<NodeId>)
        requires
            id < self@.nodes.len(),
        ensures
            r@ == self@.children_sorted(id as int),
    {
        let kids = values_by_key(&self.nodes[id].children);
        assert(kids@ =~= self@.children_sorted(id as int));
        kids
    }

    /// Whether `id` is a cold leaf.
    fn is_cold(&self, id: NodeId, now: R, min_lambda: R, min_idle_hours: R) -> (r: bool)
        requires
            1 <= id < self@.nodes.len(),
        ensures
            r == self@.cold(id as int, now, min_lambda, min_idle_hours),
    {
        let n = &self.nodes[id];
        n.alive && n.children.is_empty() && matches!(n.state, CacheState::Uncached)
            && min_idle_hours.is_le(now.minus(n.stats.t_last)) && n.stats.decayed_lambda(
            now,
            self.tau_decay,
        ).is_lt(min_lambda)
    }

    /// Garbage-collect cold leaves: uncached leaf nodes idle for at least
    /// `min_idle_hours` whose decayed rate fell below `min_lambda`. Runs to a
    /// fixpoint so cold chains unwind bottom-up. Returns nodes removed.
    pub fn gc(&mut self, now: R, min_lambda: R, min_idle_hours: R) -> (removed: usize)
        requires
            old(self).wf(),
        ensures
            final(self).wf(),
            final(self)@ == old(self)@.collected(now, min_lambda, min_idle_hours),
            removed == old(self)@.alive_count - final(self)@.alive_count,
    {
        let ghost start = self@;
        let mut removed: usize = 0;
        loop
            invariant
                self.wf(),
                start.collected(now, min_lambda, min_idle_hours) == self@.collected(
                    now,
                    min_lambda,
                    min_idle_hours,
                ),
                removed + self@.alive_count == start.alive_count,
                start.alive_count <= usize::MAX,
            ensures
                self.wf(),
                self@ == start.collected(now, min_lambda, min_idle_hours),
                removed + self@.alive_count == start.alive_count,
            decreases self@.alive_count,
        {
            let ghost here = self@;
            let mut victims: Vec<NodeId> = Vec::new();
            let mut id: NodeId = 1;
            assert(here.cold_leaves(1, now, min_lambda, min_idle_hours) =~= Seq::empty()) by {
                reveal_with_fuel(TrieModel::cold_leaves, 2);
            }
            while id < self.nodes.len()
                invariant
                    1 <= id <= self.nodes.len(),
                    self@ == here,
                    victims@ == here.cold_leaves(id as nat, now, min_lambda, min_idle_hours),
                decreases self.nodes.len() - id,
            {
                if self.is_cold(id, now, min_lambda, min_idle_hours) {
                    victims.push(id);
                }
                id = id + 1;
            }
            if victims.len() == 0 {
                break;
            }
            proof {
                here.cold_leaves_are_cold(here.nodes.len(), now, min_lambda, min_idle_hours);
                here.spare_leaves_are_few(victims@);
                assert(victims@.take(0) =~= Seq::empty());
                let same = here.without(victims@.take(0));
                assert forall|q: int| 0 <= q < here.nodes.len() implies here.nodes[q]
                    == same.nodes[q] by {
                    assert(same.nodes[q].children =~= here.nodes[q].children);
                }
                assert(self@.nodes =~= same.nodes);
                assert(self@ =~= same);
            }
            let mut k: usize = 0;
            while k < victims.len()
                invariant
                    k <= victims.len(),
                    here.wf(),
                    here.spare(victims@),
                    self@ == here.without(victims@.take(k as int)),
                    self@.wf(),
                    victims.len() < here.alive_count,
                    self@.alive_count == here.alive_count - k,
                    removed + self@.alive_count == start.alive_count,
                    start.alive_count <= usize::MAX,
                decreases victims.len() - k,
            {
                let id: NodeId = victims[k];
                let ghost mid = self@;
                proof {
                    assert(here.is_spare(victims@[k as int] as int));
                    assert(!victims@.take(k as int).contains(id));
                    assert(mid.live(id as int));
                    assert(mid.hangs(id as int));
                }
                let parent = self.nodes[id].parent;
                let edge: u64 = self.nodes[id].edge;
                if let Some(p) = parent {
                    self.nodes[p].children.remove(&edge);
                }
                self.nodes[id].alive = false;
                self.free.push(id);
                self.alive_count = self.alive_count - 1;
                removed = removed + 1;
                k = k + 1;
                proof {
                    let goner = victims@.take(k as int);
                    assert(goner =~= victims@.take(k - 1).push(id));
                    assert(here.spare(goner));
                    here.without_is_wf(goner);
                    let want = here.without(goner);
                    assert forall|q: int| 0 <= q < want.nodes.len() implies self@.nodes[q]
                        == want.nodes[q] by {
                        here.lost_one(victims@.take(k - 1), id, q);
                    }
                    assert(self@.nodes =~= want.nodes);
                    assert(self@ =~= want);
                }
            }
            assert(victims@.take(k as int) =~= victims@);
        }
        removed
    }
}

} // verus!
