//! What a request does, told by the state before it.
use vstd::prelude::*;

use crate::engine::laws::node_of;
use crate::engine::model::{cleared, learned, live_cache, EngineModel};
use crate::engine::{Action, Defer};
use crate::fixed::Fixed;
use crate::number::Real;
use crate::stats::Traffic;
use crate::trie::laws::new_node;
use crate::trie::{CacheState, NodeId};

verus! {

impl<R: Real> EngineModel<R> {
    /// Whether `x` holds a cache that is live at `now`.
    pub open spec fn reads(self, x: NodeId, now: R) -> bool {
        &&& self.trie.live(x as int)
        &&& self.trie.nodes[x as int].state is Cached
        &&& now.below(self.trie.nodes[x as int].state->expires_at_hours)
    }

    /// Whether a cache is in the making at `x`.
    pub open spec fn in_flight(self, x: NodeId) -> bool {
        self.trie.live(x as int) && self.trie.nodes[x as int].state is Pending
    }

    /// The traffic known of `x`, none where it is new.
    pub open spec fn known(self, x: NodeId) -> Traffic<R> {
        if self.trie.live(x as int) {
            self.trie.nodes[x as int].stats
        } else {
            Traffic::fresh()
        }
    }

    /// The engine once a request has been recorded and expired caches on its path
    /// have been given up, before it creates anything.
    spec fn walked(self, blocks: Seq<u64>, now: R) -> Self {
        let a = self.returned(blocks, now);
        let (t, path) = a.trie.observed_path(0, blocks, now);
        (EngineModel { trie: t, ..a }).swept(path, now)
    }

    /// What is given up on a path is all that has expired on it.
    proof fn swept_clears(self, path: Seq<NodeId>, now: R, k: int)
        requires
            0 <= k < path.len(),
            forall|j: int|
                0 <= j < path.len() ==> (#[trigger] path[j]) < self.trie.nodes.len(),
        ensures
            self.swept(path, now).trie.nodes[path[k] as int] == cleared(
                self.trie.nodes[path[k] as int],
                now,
            ),
        decreases path.len(),
    {
        let rest = path.drop_last();
        let last = path.len() - 1;
        assert forall|j: int| 0 <= j < rest.len() implies (#[trigger] rest[j])
            < self.trie.nodes.len() by {
            assert(rest[j] == path[j]);
        }
        self.swept_keeps_place(rest, now);
        assert(path[last] < self.trie.nodes.len());
        if k < last {
            self.swept_clears(rest, now, k);
            assert(rest[k] == path[k]);
        }
        assert(self.swept(rest, now).trie.nodes[path[last] as int] == self.trie.nodes[
            path[last] as int
        ] || self.swept(rest, now).trie.nodes[path[last] as int] == cleared(
            self.trie.nodes[path[last] as int],
            now,
        ));
    }

    /// A request leaves of the nodes that it passes what they were, but for its
    /// traffic, what it teaches, and caches that had expired.
    #[verifier::rlimit(60)]
    proof fn request_frame(self, blocks: Seq<u64>, now: R)
        requires
            self.wf(),
            blocks.len() <= u64::MAX,
            blocks.len() * self.cfg.block_tokens <= u64::MAX,
        ensures
            ({
                let a = self.returned(blocks, now);
                let (t, path) = a.trie.observed_path(0, blocks, now);
                let b = EngineModel { trie: t, ..a };
                let c = self.walked(blocks, now);
                &&& path.len() <= blocks.len()
                &&& c.prices == self.prices
                &&& c.cfg == self.cfg
                &&& c.trie.block_tokens == self.cfg.block_tokens
                &&& c.trie.nodes.len() == t.nodes.len()
                &&& forall|k: int|
                    0 <= k < path.len() ==> {
                        let x = #[trigger] path[k];
                        let n = c.trie.nodes[x as int];
                        &&& x < t.nodes.len()
                        &&& x != 0
                        &&& n.depth_blocks == k + 1
                        &&& c.tokens(x as int) == (k + 1) * self.cfg.block_tokens
                        &&& n.state is Pending <==> self.in_flight(x)
                        &&& self.in_flight(x) ==> n.state == self.trie.nodes[x as int].state
                        &&& live_cache(b.trie.nodes[x as int], now) <==> self.reads(x, now)
                        &&& n.state is Uncached <==> !self.in_flight(x) && !self.reads(x, now)
                        &&& n.last_flip == if self.trie.live(x as int) {
                            self.trie.nodes[x as int].last_flip
                        } else {
                            R::neg_inf_of()
                        }
                        &&& n.stats == self.known(x).observed(now, self.cfg.tau_decay_hours)
                    }
            }),
    {
        self.returned_is_wf(blocks, now);
        let a = self.returned(blocks, now);
        let (t, path) = a.trie.observed_path(0, blocks, now);
        let b = EngineModel { trie: t, ..a };
        let c = self.walked(blocks, now);
        a.trie.walk_fits(0, blocks, now);
        a.trie.walk_is_kept(0, blocks, now);
        a.trie.walk_records(0, blocks, now);
        a.walked_is_wf(blocks, now);
        assert forall|k: int| 0 <= k < path.len() implies (#[trigger] path[k]) < t.nodes.len() by {
            assert(t.passed(path[k], blocks[k], k + 1));
        }
        b.swept_keeps_place(path, now);
        assert forall|k: int| 0 <= k < path.len() implies ({
            let x = #[trigger] path[k];
            let n = c.trie.nodes[x as int];
            &&& x < t.nodes.len()
            &&& x != 0
            &&& n.depth_blocks == k + 1
            &&& c.tokens(x as int) == (k + 1) * self.cfg.block_tokens
            &&& n.state is Pending <==> self.in_flight(x)
            &&& self.in_flight(x) ==> n.state == self.trie.nodes[x as int].state
            &&& live_cache(b.trie.nodes[x as int], now) <==> self.reads(x, now)
            &&& n.state is Uncached <==> !self.in_flight(x) && !self.reads(x, now)
            &&& n.last_flip == if self.trie.live(x as int) {
                self.trie.nodes[x as int].last_flip
            } else {
                R::neg_inf_of()
            }
            &&& n.stats == self.known(x).observed(now, self.cfg.tau_decay_hours)
        }) by {
            let x = path[k];
            assert(t.passed(x, blocks[k], k + 1));
            b.swept_clears(path, now, k);
            let bt = self.cfg.block_tokens;
            assert((k + 1) * bt <= blocks.len() * bt) by (nonlinear_arith)
                requires
                    k + 1 <= blocks.len(),
                    bt >= 0,
            ;
            assert(self.trie.live(x as int) == a.trie.live(x as int)) by {
                if x < self.trie.nodes.len() {
                    assert(a.trie.nodes[x as int].alive == self.trie.nodes[x as int].alive);
                }
            }
            if self.trie.live(x as int) {
                assert(a.trie.live(x as int));
                assert(a.trie.keeps_node(t, x as int));
            } else {
                assert(t.live(x as int));
                assert(new_node(t.nodes[x as int]));
            }
        }
    }

    /// The deepest create in flight on a path is below all others.
    proof fn deepest_pending_is_deepest(self, path: Seq<NodeId>)
        ensures
            match self.deepest_pending(path) {
                Some(id) => exists|k: int|
                    {
                        &&& 0 <= k < path.len()
                        &&& #[trigger] path[k] == id
                        &&& self.trie.nodes[id as int].state is Pending
                        &&& forall|j: int|
                            k < j < path.len() ==> !(self.trie.nodes[
                                #[trigger] path[j] as int
                            ].state is Pending)
                    },
                None => forall|j: int|
                    0 <= j < path.len() ==> !(self.trie.nodes[
                        #[trigger] path[j] as int
                    ].state is Pending),
            },
        decreases path.len(),
    {
        if path.len() > 0 {
            let rest = path.drop_last();
            let last = path.len() - 1;
            self.deepest_pending_is_deepest(rest);
            if self.trie.nodes[path.last() as int].state is Pending {
                assert(path[last] == path.last());
            } else {
                assert forall|j: int| 0 <= j < rest.len() implies rest[j] == #[trigger] path[j] by {}
                if let Some(id) = self.deepest_pending(rest) {
                    let k = choose|k: int|
                        {
                            &&& 0 <= k < rest.len()
                            &&& #[trigger] rest[k] == id
                            &&& self.trie.nodes[id as int].state is Pending
                            &&& forall|j: int|
                                k < j < rest.len() ==> !(self.trie.nodes[
                                    #[trigger] rest[j] as int
                                ].state is Pending)
                        };
                    assert(path[k] == id);
                    assert forall|j: int| k < j < path.len() implies !(self.trie.nodes[
                        #[trigger] path[j] as int
                    ].state is Pending) by {
                        if j < last {
                            assert(rest[j] == path[j]);
                        }
                    }
                } else {
                    assert forall|j: int| 0 <= j < path.len() implies !(self.trie.nodes[
                        #[trigger] path[j] as int
                    ].state is Pending) by {
                        if j < last {
                            assert(rest[j] == path[j]);
                        }
                    }
                }
            }
        }
    }

    /// What covers a path is as long as the deepest live cache or create in
    /// flight on it, and nothing else is.
    #[verifier::rlimit(60)]
    proof fn cover_is_exact(self, blocks: Seq<u64>, now: R, k: int)
        requires
            self.wf(),
            blocks.len() <= u64::MAX,
            blocks.len() * self.cfg.block_tokens <= u64::MAX,
            0 <= k < self.returned(blocks, now).trie.observed_path(0, blocks, now).1.len(),
        ensures
            ({
                let a = self.returned(blocks, now);
                let (t, path) = a.trie.observed_path(0, blocks, now);
                let b = EngineModel { trie: t, ..a };
                let c = self.walked(blocks, now);
                c.tokens(path[k] as int) > c.covered_tokens(path, b.deepest_live(path, now)) <==> {
                    &&& self.cfg.block_tokens > 0
                    &&& forall|j: int|
                        k <= j < path.len() ==> !self.reads(#[trigger] path[j], now)
                            && !self.in_flight(path[j])
                }
            }),
    {
        self.request_frame(blocks, now);
        let a = self.returned(blocks, now);
        let (t, path) = a.trie.observed_path(0, blocks, now);
        let b = EngineModel { trie: t, ..a };
        let c = self.walked(blocks, now);
        let n = self.cfg.block_tokens as int;
        b.deepest_cache_is_read(path, now);
        c.deepest_pending_is_deepest(path);
        let live = b.deepest_live(path, now);
        let pend = c.deepest_pending(path);
        let x = path[k];
        assert(c.tokens(x as int) == (k + 1) * n);
        if let Some(id) = live {
            let i = choose|i: int|
                {
                    &&& 0 <= i < path.len()
                    &&& #[trigger] path[i] == id
                    &&& live_cache(b.trie.nodes[id as int], now)
                    &&& forall|j: int|
                        i < j < path.len() ==> !live_cache(
                            b.trie.nodes[#[trigger] path[j] as int],
                            now,
                        )
                };
            assert(c.tokens(path[i] as int) == (i + 1) * n);
            assert(self.reads(path[i], now));
            assert((k + 1) * n > (i + 1) * n <==> n > 0 && k > i) by (nonlinear_arith)
                requires
                    n >= 0,
            ;
        }
        if let Some(id) = pend {
            let i = choose|i: int|
                {
                    &&& 0 <= i < path.len()
                    &&& #[trigger] path[i] == id
                    &&& c.trie.nodes[id as int].state is Pending
                    &&& forall|j: int|
                        i < j < path.len() ==> !(c.trie.nodes[
                            #[trigger] path[j] as int
                        ].state is Pending)
                };
            assert(c.tokens(path[i] as int) == (i + 1) * n);
            assert(self.in_flight(path[i]));
            assert((k + 1) * n > (i + 1) * n <==> n > 0 && k > i) by (nonlinear_arith)
                requires
                    n >= 0,
            ;
        }
        assert((k + 1) * n > 0 <==> n > 0) by (nonlinear_arith)
            requires
                n >= 0,
                k >= 0,
        ;
    }

    /// No cache is paid for twice: what a request creates is longer than every
    /// prefix on its path that holds a live cache, and than every one whose create
    /// is in flight, whatever the configuration. A request whose deepest node is
    /// in flight creates nothing.
    #[verifier::rlimit(60)]
    pub proof fn create_exceeds_what_is_there(self, blocks: Seq<u64>, now: R, j: int)
        requires
            self.wf(),
            blocks.len() <= u64::MAX,
            blocks.len() * self.cfg.block_tokens <= u64::MAX,
            0 <= j < self.observed(blocks, now).1.path.len(),
            ({
                let x = self.observed(blocks, now).1.path[j];
                self.in_flight(x) || self.reads(x, now)
            }),
        ensures
            ({
                let seen = self.observed(blocks, now).1;
                &&& forall|i: int|
                    0 <= i < seen.actions.len() ==> {
                        &&& (#[trigger] seen.actions[i]) is Create
                        &&& seen.actions[i]->Create_tokens > self.tokens(seen.path[j] as int)
                        &&& seen.actions[i]->Create_tokens > (j + 1) * self.cfg.block_tokens
                    }
                &&& j == seen.path.len() - 1 ==> seen.actions.len() == 0
            }),
    {
        self.request_frame(blocks, now);
        let a = self.returned(blocks, now);
        let (t, path) = a.trie.observed_path(0, blocks, now);
        let b = EngineModel { trie: t, ..a };
        let c = self.walked(blocks, now);
        let deepest = b.deepest_live(path, now);
        c.choice_is_on_path(path, c.covered_tokens(path, deepest), now);
        let x = path[j];
        self.returned_is_wf(blocks, now);
        a.trie.walk_is_kept(0, blocks, now);
        assert(a.trie.live(x as int)) by {
            assert(a.trie.nodes[x as int].alive == self.trie.nodes[x as int].alive);
        }
        assert(a.trie.keeps_node(t, x as int));
        assert(t.passed(path[j], blocks[j], j + 1));
        let n = self.cfg.block_tokens as int;
        assert((j + 1) * n <= blocks.len() * n) by (nonlinear_arith)
            requires
                j + 1 <= blocks.len(),
                n >= 0,
        ;
        if let Some(id) = c.creation(path, deepest, now) {
            let k = choose|k: int| 0 <= k < path.len() && path[k] == id;
            self.cover_is_exact(blocks, now, k);
            assert(path[k] == id);
            assert(k > j);
            assert((k + 1) * n > (j + 1) * n) by (nonlinear_arith)
                requires
                    k > j,
                    n > 0,
            ;
        }
    }

    /// A request reads the deepest cache of its path that was live when it came,
    /// and is told its length; it reads none only where there was none.
    #[verifier::rlimit(60)]
    pub proof fn request_reads_deepest_cache(self, blocks: Seq<u64>, now: R)
        requires
            self.wf(),
            blocks.len() <= u64::MAX,
            blocks.len() * self.cfg.block_tokens <= u64::MAX,
        ensures
            ({
                let seen = self.observed(blocks, now).1;
                match seen.deepest_cached {
                    Some(id) => exists|k: int|
                        {
                            &&& 0 <= k < seen.path.len()
                            &&& #[trigger] seen.path[k] == id
                            &&& self.reads(id, now)
                            &&& seen.cached_tokens == (k + 1) * self.cfg.block_tokens
                            &&& forall|j: int|
                                k < j < seen.path.len() ==> !self.reads(
                                    #[trigger] seen.path[j],
                                    now,
                                )
                        },
                    None => {
                        &&& seen.cached_tokens == 0
                        &&& forall|j: int|
                            0 <= j < seen.path.len() ==> !self.reads(#[trigger] seen.path[j], now)
                    },
                }
            }),
    {
        self.request_frame(blocks, now);
        let a = self.returned(blocks, now);
        let (t, path) = a.trie.observed_path(0, blocks, now);
        let b = EngineModel { trie: t, ..a };
        b.deepest_cache_is_read(path, now);
        if let Some(id) = b.deepest_live(path, now) {
            let k = choose|k: int|
                {
                    &&& 0 <= k < path.len()
                    &&& #[trigger] path[k] == id
                    &&& live_cache(b.trie.nodes[id as int], now)
                    &&& forall|j: int|
                        k < j < path.len() ==> !live_cache(
                            b.trie.nodes[#[trigger] path[j] as int],
                            now,
                        )
                };
            let seen = self.observed(blocks, now).1;
            let c = self.walked(blocks, now);
            assert(self.reads(path[k], now));
            assert(seen.path == path);
            assert(seen.cached_tokens == c.tokens(path[k] as int));
            assert(seen.path[k] == id);
            assert forall|j: int| k < j < seen.path.len() implies !self.reads(
                #[trigger] seen.path[j],
                now,
            ) by {
                assert(!live_cache(b.trie.nodes[path[j] as int], now));
            }
        } else {
            let seen = self.observed(blocks, now).1;
            assert forall|j: int| 0 <= j < seen.path.len() implies !self.reads(
                #[trigger] seen.path[j],
                now,
            ) by {
                assert(!live_cache(b.trie.nodes[path[j] as int], now));
            }
        }
    }

    /// A request is told to wait exactly where micro-batching is on, storage is
    /// metered, and the deepest create in flight on its path began less than the
    /// deferral ago: for that create, until the deferral is over.
    #[verifier::rlimit(60)]
    pub proof fn request_waits_for_create_in_flight(self, blocks: Seq<u64>, now: R)
        requires
            self.wf(),
            blocks.len() <= u64::MAX,
            blocks.len() * self.cfg.block_tokens <= u64::MAX,
        ensures
            ({
                let seen = self.observed(blocks, now).1;
                let wait = self.cfg.micro_batch_defer_hours;
                &&& !self.cfg.enable_micro_batch || self.prices.storage_per_mtok_hour is None
                    ==> seen.defer is None
                &&& (forall|j: int|
                    0 <= j < seen.path.len() ==> !self.in_flight(#[trigger] seen.path[j]))
                    ==> seen.defer is None
                &&& forall|k: int|
                    {
                        &&& self.cfg.enable_micro_batch
                        &&& self.prices.storage_per_mtok_hour is Some
                        &&& 0 <= k < seen.path.len()
                        &&& self.in_flight(#[trigger] seen.path[k])
                        &&& forall|j: int|
                            k < j < seen.path.len() ==> !self.in_flight(#[trigger] seen.path[j])
                    } ==> {
                        let since = self.trie.nodes[seen.path[k] as int].state->since_hours;
                        seen.defer == if now.diff(since).below(wait) {
                            Some(Defer { node: seen.path[k], until_hours: since.sum(wait) })
                        } else {
                            None
                        }
                    }
            }),
    {
        self.request_frame(blocks, now);
        let a = self.returned(blocks, now);
        let (t, path) = a.trie.observed_path(0, blocks, now);
        let c = self.walked(blocks, now);
        let seen = self.observed(blocks, now).1;
        c.deepest_pending_is_deepest(path);
        assert(seen.defer == c.advice(path, now));
        if let Some(id) = c.deepest_pending(path) {
            let i = choose|i: int|
                {
                    &&& 0 <= i < path.len()
                    &&& #[trigger] path[i] == id
                    &&& c.trie.nodes[id as int].state is Pending
                    &&& forall|j: int|
                        i < j < path.len() ==> !(c.trie.nodes[
                            #[trigger] path[j] as int
                        ].state is Pending)
                };
            assert(self.in_flight(path[i]));
            assert forall|k: int|
                {
                    &&& self.cfg.enable_micro_batch
                    &&& self.prices.storage_per_mtok_hour is Some
                    &&& 0 <= k < seen.path.len()
                    &&& self.in_flight(#[trigger] seen.path[k])
                    &&& forall|j: int|
                        k < j < seen.path.len() ==> !self.in_flight(#[trigger] seen.path[j])
                } implies ({
                let since = self.trie.nodes[seen.path[k] as int].state->since_hours;
                seen.defer == if now.diff(since).below(self.cfg.micro_batch_defer_hours) {
                    Some(
                        Defer {
                            node: seen.path[k],
                            until_hours: since.sum(self.cfg.micro_batch_defer_hours),
                        },
                    )
                } else {
                    None
                }
            }) by {
                assert(c.trie.nodes[path[k] as int].state is Pending);
                if i < k {
                    assert(!(c.trie.nodes[path[k] as int].state is Pending));
                }
                if k < i {
                    assert(!self.in_flight(seen.path[i]));
                }
            }
        }
    }
}

impl<R: Real> EngineModel<R> {
    /// Whether a cache may be created at `id`, given what covers the path.
    spec fn eligible_at(self, id: int, covered: u64, now: R) -> bool {
        let n = self.trie.nodes[id];
        &&& n.state is Uncached
        &&& !now.diff(n.last_flip).below(self.cfg.min_dwell_hours)
        &&& self.tokens(id) >= self.prices.min_cacheable_tokens
        &&& self.tokens(id) > covered
        &&& self.earns(id, now)
    }

    /// A cache is created at the deepest node where one may be.
    #[verifier::rlimit(60)]
    proof fn choice_is_deepest(self, path: Seq<NodeId>, covered: u64, now: R)
        requires
            forall|i: int, j: int|
                0 <= i <= j < path.len() ==> self.tokens(#[trigger] path[i] as int) <= self.tokens(
                    #[trigger] path[j] as int,
                ),
        ensures
            match self.choice(path, covered, now) {
                Some(id) => exists|k: int|
                    {
                        &&& 0 <= k < path.len()
                        &&& #[trigger] path[k] == id
                        &&& self.eligible_at(id as int, covered, now)
                        &&& forall|j: int|
                            k < j < path.len() ==> !self.eligible_at(
                                #[trigger] path[j] as int,
                                covered,
                                now,
                            )
                    },
                None => forall|j: int|
                    0 <= j < path.len() ==> !self.eligible_at(
                        #[trigger] path[j] as int,
                        covered,
                        now,
                    ),
            },
        decreases path.len(),
    {
        if path.len() > 0 {
            let rest = path.drop_last();
            let last = path.len() - 1;
            let id = path.last() as int;
            assert(path[last] == path.last());
            assert forall|i: int, j: int| 0 <= i <= j < rest.len() implies self.tokens(
                #[trigger] rest[i] as int,
            ) <= self.tokens(#[trigger] rest[j] as int) by {
                assert(rest[i] == path[i] && rest[j] == path[j]);
            }
            self.choice_is_deepest(rest, covered, now);
            assert forall|j: int| 0 <= j < last implies rest[j] == #[trigger] path[j]
                && self.tokens(path[j] as int) <= self.tokens(path[last] as int) by {}
            if self.choice(path, covered, now) == Some(path.last()) && self.eligible_at(
                id,
                covered,
                now,
            ) {
            } else if let Some(x) = self.choice(path, covered, now) {
                let k = choose|k: int|
                    {
                        &&& 0 <= k < rest.len()
                        &&& #[trigger] rest[k] == x
                        &&& self.eligible_at(x as int, covered, now)
                        &&& forall|j: int|
                            k < j < rest.len() ==> !self.eligible_at(
                                #[trigger] rest[j] as int,
                                covered,
                                now,
                            )
                    };
                assert(path[k] == x);
                assert forall|j: int| k < j < path.len() implies !self.eligible_at(
                    #[trigger] path[j] as int,
                    covered,
                    now,
                ) by {
                    if j < last {
                        assert(rest[j] == path[j]);
                    }
                }
            } else {
                assert forall|j: int| 0 <= j < path.len() implies !self.eligible_at(
                    #[trigger] path[j] as int,
                    covered,
                    now,
                ) by {
                    if j < last {
                        assert(rest[j] == path[j]);
                    }
                }
            }
        }
    }
}

impl EngineModel<Fixed> {
    /// Whether a cache at the place `k` of a path would pay when a request comes:
    /// the path holds no cache and none in the making from there on; the prefix
    /// is long enough and has dwelt since its last flip; its arrival rate, with
    /// the request, brings `1 + create_margin` requests within the hold; and its
    /// savings exceed its cost by the threshold.
    pub open spec fn would_pay(self, path: Seq<NodeId>, k: int, now: Fixed) -> bool {
        let x = path[k];
        let stats = self.known(x).observed(now, self.cfg.tau_decay_hours);
        let lambda = stats.decayed_lambda(now, self.cfg.tau_decay_hours);
        let tokens = (k + 1) * self.cfg.block_tokens;
        let tau = self.prices.tau_hold()->0.units;
        let cost = self.prices.cost_rate(
            tokens as u64,
            stats,
            now,
            self.cfg.tau_decay_hours,
        ).0.units;
        &&& forall|j: int|
            k <= j < path.len() ==> !self.reads(#[trigger] path[j], now) && !self.in_flight(path[j])
        &&& tokens > 0
        &&& tokens >= self.prices.min_cacheable_tokens
        &&& self.trie.live(x as int) ==> now.units - self.trie.nodes[x as int].last_flip.units
            >= self.cfg.min_dwell_hours.units
        &&& lambda.units * tau >= 1_000_000_000 * (1_000_000_000 + self.cfg.create_margin.units)
        &&& (self.cfg.theta_up.units * cost) / 1_000_000_000 < self.prices.savings_rate(
            tokens as u64,
            lambda,
        ).units
    }

    #[verifier::rlimit(60)]
    proof fn eligible_is_paying(self, blocks: Seq<u64>, now: Fixed, k: int)
        requires
            self.wf(),
            blocks.len() <= u64::MAX,
            blocks.len() * self.cfg.block_tokens <= u64::MAX,
            self.prices.storage_per_mtok_hour is Some,
            0 <= self.prices.storage_per_mtok_hour->0.units,
            0 <= now.units,
            0 <= self.cfg.min_dwell_hours.units,
            0 <= self.cfg.theta_up.units,
            0 <= self.cfg.create_margin.units <= i64::MAX - 1_000_000_000,
            0 <= k < self.returned(blocks, now).trie.observed_path(0, blocks, now).1.len(),
        ensures
            ({
                let a = self.returned(blocks, now);
                let (t, path) = a.trie.observed_path(0, blocks, now);
                let b = EngineModel { trie: t, ..a };
                let c = self.walked(blocks, now);
                let covered = c.covered_tokens(path, b.deepest_live(path, now));
                c.eligible_at(path[k] as int, covered, now) == self.would_pay(path, k, now)
            }),
    {
        self.request_frame(blocks, now);
        let a = self.returned(blocks, now);
        let (t, path) = a.trie.observed_path(0, blocks, now);
        let c = self.walked(blocks, now);
        let n = self.cfg.block_tokens as int;
        self.cover_is_exact(blocks, now, k);
        let x = path[k];
        let m = c.trie.nodes[x as int];
        let tokens = (k + 1) * n;
        assert(c.tokens(x as int) == tokens);
        assert(tokens > 0 <==> n > 0) by (nonlinear_arith)
            requires
                tokens == (k + 1) * n,
                n >= 0,
                k >= 0,
        ;
        let lambda = m.stats.decayed_lambda(now, self.cfg.tau_decay_hours);
        let tau = self.prices.tau_hold()->0;
        let v = lambda.units * tau.units;
        let need = 1_000_000_000 + self.cfg.create_margin.units;
        assert(Fixed::int_of(1).sum(self.cfg.create_margin).units == need);
        assert(v / 1_000_000_000 < need <==> v < 1_000_000_000 * need);
        assert(lambda.prod(tau).below(Fixed::int_of(1).sum(self.cfg.create_margin)) <==> v
            < 1_000_000_000 * need);
        let cost = self.prices.cost_rate(
            tokens as u64,
            m.stats,
            now,
            self.cfg.tau_decay_hours,
        ).0;
        assert(cost.units >= 0) by {
            let mt = crate::plan::mtok_of::<Fixed>(tokens as u64);
            let s = self.prices.storage_per_mtok_hour->0;
            assert(Fixed::int_of(tokens as u64).units >= 0);
            assert(Fixed::int_of(1_000_000).units == 1_000_000_000_000_000);
            assert(mt.units >= 0);
            assert(mt.units * s.units >= 0) by (nonlinear_arith)
                requires
                    mt.units >= 0,
                    s.units >= 0,
            ;
        }
        let w = self.cfg.theta_up.units * cost.units;
        assert(w >= 0) by (nonlinear_arith)
            requires
                w == self.cfg.theta_up.units * cost.units,
                self.cfg.theta_up.units >= 0,
                cost.units >= 0,
        ;
        let gap = now.diff(m.last_flip);
        if !self.trie.live(x as int) {
            assert(gap.units == i64::MAX);
        }
    }

    /// A request creates a cache exactly where one pays: at the deepest node of
    /// its path where it would, for the hold time; it creates none only where
    /// none would.
    #[verifier::rlimit(50)]
    pub proof fn request_creates_deepest_that_pays(self, blocks: Seq<u64>, now: Fixed)
        requires
            self.wf(),
            blocks.len() <= u64::MAX,
            blocks.len() * self.cfg.block_tokens <= u64::MAX,
            self.prices.storage_per_mtok_hour is Some,
            0 <= self.prices.storage_per_mtok_hour->0.units,
            0 <= now.units,
            0 <= self.cfg.min_dwell_hours.units,
            0 <= self.cfg.theta_up.units,
            0 <= self.cfg.create_margin.units <= i64::MAX - 1_000_000_000,
        ensures
            ({
                let seen = self.observed(blocks, now).1;
                &&& seen.actions.len() <= 1
                &&& seen.actions.len() == 0 <==> forall|k: int|
                    #![trigger seen.path[k]]
                    0 <= k < seen.path.len() ==> !self.would_pay(seen.path, k, now)
                &&& seen.actions.len() == 1 ==> exists|k: int|
                    {
                        &&& 0 <= k < seen.path.len()
                        &&& seen.actions[0] == Action::Create {
                            node: #[trigger] seen.path[k],
                            tokens: ((k + 1) * self.cfg.block_tokens) as u64,
                            ttl_hours: self.prices.tau_hold()->0,
                        }
                        &&& self.would_pay(seen.path, k, now)
                        &&& forall|j: int|
                            #![trigger seen.path[j]]
                            k < j < seen.path.len() ==> !self.would_pay(seen.path, j, now)
                    }
            }),
    {
        self.request_frame(blocks, now);
        let a = self.returned(blocks, now);
        let (t, path) = a.trie.observed_path(0, blocks, now);
        let b = EngineModel { trie: t, ..a };
        let c = self.walked(blocks, now);
        let deepest = b.deepest_live(path, now);
        let covered = c.covered_tokens(path, deepest);
        let n = self.cfg.block_tokens as int;
        assert forall|i: int, j: int| 0 <= i <= j < path.len() implies c.tokens(
            #[trigger] path[i] as int,
        ) <= c.tokens(#[trigger] path[j] as int) by {
            assert((i + 1) * n <= (j + 1) * n) by (nonlinear_arith)
                requires
                    i <= j,
                    n >= 0,
            ;
        }
        c.choice_is_deepest(path, covered, now);
        assert forall|k: int| 0 <= k < path.len() implies c.eligible_at(
            #[trigger] path[k] as int,
            covered,
            now,
        ) == self.would_pay(path, k, now) by {
            self.eligible_is_paying(blocks, now, k);
        }
        let seen = self.observed(blocks, now).1;
        assert(seen.path == path);
        assert(self.prices.tau_hold() is Some);
        if let Some(id) = c.choice(path, covered, now) {
            let k = choose|k: int|
                {
                    &&& 0 <= k < path.len()
                    &&& #[trigger] path[k] == id
                    &&& c.eligible_at(id as int, covered, now)
                    &&& forall|j: int|
                        k < j < path.len() ==> !c.eligible_at(
                            #[trigger] path[j] as int,
                            covered,
                            now,
                        )
                };
            assert(self.would_pay(seen.path, k, now));
            assert(seen.path[k] == id);
            assert forall|j: int|
                #![trigger seen.path[j]]
                k < j < seen.path.len() implies !self.would_pay(seen.path, j, now) by {
                assert(!c.eligible_at(path[j] as int, covered, now));
            }
        } else {
            assert forall|j: int|
                #![trigger seen.path[j]]
                0 <= j < seen.path.len() implies !self.would_pay(seen.path, j, now) by {
                assert(!c.eligible_at(path[j] as int, covered, now));
            }
        }
    }
}

impl<R: Real> EngineModel<R> {
    /// Each node on a list is taught once, and no other is.
    #[verifier::rlimit(60)]
    proof fn taught_pointwise(self, ids: Seq<NodeId>, now: R, x: int)
        requires
            ids.no_duplicates(),
            0 <= x < self.trie.nodes.len(),
            forall|k: int|
                0 <= k < ids.len() ==> (#[trigger] ids[k]) < self.trie.nodes.len(),
        ensures
            self.taught(ids, now).trie.nodes.len() == self.trie.nodes.len(),
            self.taught(ids, now).trie.nodes[x] == if ids.contains(x as usize) && x
                <= usize::MAX {
                learned(
                    self.trie.nodes[x],
                    now,
                    self.prices.tau_hold()->0,
                    self.prices.tau_effective()->0,
                )
            } else {
                self.trie.nodes[x]
            },
        decreases ids.len(),
    {
        if ids.len() > 0 {
            let rest = ids.drop_last();
            let last = ids.len() - 1;
            assert forall|k: int| 0 <= k < rest.len() implies (#[trigger] rest[k])
                < self.trie.nodes.len() by {
                assert(rest[k] == ids[k]);
            }
            assert(rest.no_duplicates()) by {
                assert forall|i: int, j: int|
                    0 <= i < rest.len() && 0 <= j < rest.len() && i != j implies rest[i]
                    != rest[j] by {
                    assert(ids[i] != ids[j]);
                }
            }
            self.taught_pointwise(rest, now, x);
            assert(ids[last] < self.trie.nodes.len());
            assert(!rest.contains(ids[last])) by {
                if rest.contains(ids[last]) {
                    let j = choose|j: int| 0 <= j < rest.len() && rest[j] == ids[last];
                    assert(ids[j] == ids[last]);
                }
            }
            if x <= usize::MAX {
                if ids.contains(x as usize) && ids[last] != x {
                    let j = choose|j: int| 0 <= j < ids.len() && ids[j] == x as usize;
                    assert(rest[j] == x as usize);
                }
                if rest.contains(x as usize) {
                    let j = choose|j: int| 0 <= j < rest.len() && rest[j] == x as usize;
                    assert(ids[j] == x as usize);
                }
            }
            self.taught_pointwise(rest, now, ids[last] as int);
        }
    }

    /// What a request leaves of a node that was there: on its path, the traffic
    /// with one request more, what its return teaches where storage is metered,
    /// and no cache that had expired; a node that it creates a cache at is in
    /// flight from now. Off its path, all is as it was.
    #[verifier::rlimit(60)]
    pub proof fn request_changes_only_its_path(self, blocks: Seq<u64>, now: R, id: int)
        requires
            self.wf(),
            blocks.len() <= u64::MAX,
            blocks.len() * self.cfg.block_tokens <= u64::MAX,
            self.trie.live(id),
        ensures
            ({
                let (e, seen) = self.observed(blocks, now);
                let n = self.trie.nodes[id];
                let m = e.trie.nodes[id];
                let on_path = seen.path.contains(id as usize);
                let created = seen.actions.len() > 0 && node_of(seen.actions[0]) == id;
                let wiser = if on_path && self.prices.storage_per_mtok_hour is Some {
                    learned(
                        n,
                        now,
                        self.prices.tau_hold()->0,
                        self.prices.tau_effective()->0,
                    )
                } else {
                    n
                };
                &&& m.alive
                &&& m.edge == n.edge && m.parent == n.parent && m.depth_blocks == n.depth_blocks
                &&& m.last_delete == n.last_delete
                &&& m.hold_hint == wiser.hold_hint
                &&& m.lulls == wiser.lulls
                &&& m.stats == if on_path {
                    n.stats.observed(now, self.cfg.tau_decay_hours)
                } else {
                    n.stats
                }
                &&& if created {
                    &&& on_path
                    &&& m.state == (CacheState::Pending { since_hours: now })
                    &&& m.last_flip == now
                    &&& !m.ahead
                } else {
                    &&& m.last_flip == n.last_flip
                    &&& m.ahead == n.ahead
                    &&& m.state == if on_path && n.state is Cached && !now.below(
                        n.state->expires_at_hours,
                    ) {
                        CacheState::Uncached
                    } else {
                        n.state
                    }
                }
            }),
    {
        self.request_frame(blocks, now);
        self.returned_is_wf(blocks, now);
        let a = self.returned(blocks, now);
        let (t, path) = a.trie.observed_path(0, blocks, now);
        let b = EngineModel { trie: t, ..a };
        let c = self.walked(blocks, now);
        let (e, seen) = self.observed(blocks, now);
        let deepest = b.deepest_live(path, now);
        a.trie.walk_is_kept(0, blocks, now);
        a.trie.walk_records(0, blocks, now);
        a.trie.walk_adds_beyond(0, blocks, now);
        c.choice_is_on_path(path, c.covered_tokens(path, deepest), now);
        assert(a.trie.nodes[id].alive == self.trie.nodes[id].alive);
        assert(a.trie.live(id));
        assert(a.trie.keeps_node(t, id));
        let x = id as usize;
        let found = self.trie.peeked_path(0, blocks);
        assert forall|y: int| 0 <= y < self.trie.nodes.len() implies (
        #[trigger] a.trie.nodes[y]).children == self.trie.nodes[y].children by {}
        self.same_links_same_path(a, 0, blocks);
        // The known part of the path is what is taught.
        assert(found == a.trie.peeked_path(0, blocks));
        assert(found.is_prefix_of(path));
        assert(found == path.subrange(0, found.len() as int));
        assert(path.contains(x) == found.contains(x)) by {
            if path.contains(x) {
                let k = choose|k: int| 0 <= k < path.len() && path[k] == x;
                if k >= found.len() {
                    assert(!a.trie.live(path[k] as int));
                } else {
                    assert(found[k] == x);
                }
            }
            if found.contains(x) {
                let k = choose|k: int| 0 <= k < found.len() && found[k] == x;
                assert(path[k] == x);
            }
        }
        assert(found.no_duplicates()) by {
            assert forall|i: int, j: int|
                0 <= i < found.len() && 0 <= j < found.len() && i != j implies found[i]
                != found[j] by {
                assert(found[i] == path[i] && found[j] == path[j]);
                assert(t.passed(path[i], blocks[i], i + 1));
                assert(t.passed(path[j], blocks[j], j + 1));
            }
        }
        self.trie.peeked_is_live(0, blocks);
        assert forall|k: int| 0 <= k < found.len() implies (#[trigger] found[k])
            < self.trie.nodes.len() by {
            assert(found.contains(found[k]));
        }
        self.taught_pointwise(found, now, id);
        assert forall|k: int| 0 <= k < path.len() implies (#[trigger] path[k]) < t.nodes.len() by {
            assert(t.passed(path[k], blocks[k], k + 1));
        }
        b.swept_keeps_place(path, now);
        if path.contains(x) {
            let k = choose|k: int| 0 <= k < path.len() && path[k] == x;
            b.swept_clears(path, now, k);
        } else {
            b.swept_spares(path, now, id);
        }
        if let Some(y) = c.creation(path, deepest, now) {
            let k = choose|k: int| 0 <= k < path.len() && path[k] == y;
            assert(path[k] < t.nodes.len());
        }
    }

    /// What is not on a path is not given up.
    proof fn swept_spares(self, path: Seq<NodeId>, now: R, id: int)
        requires
            0 <= id < self.trie.nodes.len() <= usize::MAX,
            !path.contains(id as usize),
            forall|j: int|
                0 <= j < path.len() ==> (#[trigger] path[j]) < self.trie.nodes.len(),
        ensures
            self.swept(path, now).trie.nodes[id] == self.trie.nodes[id],
        decreases path.len(),
    {
        if path.len() > 0 {
            let rest = path.drop_last();
            assert forall|j: int| 0 <= j < rest.len() implies (#[trigger] rest[j])
                < self.trie.nodes.len() by {
                assert(rest[j] == path[j]);
            }
            if rest.contains(id as usize) {
                let j = choose|j: int| 0 <= j < rest.len() && rest[j] == id as usize;
                assert(path[j] == id as usize);
            }
            self.swept_spares(rest, now, id);
            self.swept_keeps_place(rest, now);
            assert(path[path.len() - 1] == path.last());
            assert(path.last() != id);
        }
    }
}

impl EngineModel<Fixed> {
    /// What a request is quoted: its tokens up to the length of the deepest live
    /// cache of its path at the read price, and the rest at the input price.
    pub proof fn quote_is_by_deepest_cache(self, blocks: Seq<u64>, total: u64, now: Fixed)
        requires
            self.wf(),
            blocks.len() <= u64::MAX,
            blocks.len() * self.cfg.block_tokens <= u64::MAX,
            total <= 9_000_000_000,
            0 <= self.prices.cached_read_per_mtok.units <= 1_000_000_000_000_000,
            0 <= self.prices.input_per_mtok.units <= 1_000_000_000_000_000,
        ensures
            ({
                let live = self.observed(blocks, now).1.cached_tokens;
                let cached = if live < total {
                    live as int
                } else {
                    total as int
                };
                let exact = (1000 * cached * self.prices.cached_read_per_mtok.units) / 1_000_000_000
                    + (1000 * (total - cached) * self.prices.input_per_mtok.units) / 1_000_000_000;
                exact <= i64::MAX ==> self.quoted(blocks, total, now).units == exact
            }),
    {
        self.quote_matches_observation(blocks, total, now);
        let live = self.observed(blocks, now).1.cached_tokens;
        let cached = crate::number::min_u64(live, total);
        crate::sim::spending::tokens_are_charged(cached, self.prices.cached_read_per_mtok);
        crate::sim::spending::tokens_are_charged(
            (total - cached) as u64,
            self.prices.input_per_mtok,
        );
    }
}

} // verus!
