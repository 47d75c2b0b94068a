//! What holds of the engine, whatever it has observed.
use vstd::prelude::*;

use crate::engine::model::{cleared, live_cache, told, EngineModel, Pass, Step};
use crate::engine::Action;
use crate::number::Real;
use crate::trie::laws::new_node;
use crate::trie::{CacheState, NodeId, NodeModel, TrieModel};

verus! {

/// The node that an action is about.
pub open spec fn node_of<R: Real>(a: Action<R>) -> NodeId {
    match a {
        Action::Create { node, tokens, ttl_hours } => node,
        Action::PreCreate { node, tokens, ttl_hours } => node,
        Action::Extend { node, expires_at_hours } => node,
        Action::Delete { node } => node,
    }
}

/// Whether all actions are about nodes of an arena of `n`.
pub open spec fn names_nodes<R: Real>(actions: Seq<Action<R>>, n: nat) -> bool {
    forall|i: int| 0 <= i < actions.len() ==> node_of(#[trigger] actions[i]) < n
}

/// What the adapter is told of steps is about their nodes.
pub proof fn told_names_nodes<R: Real>(steps: Seq<(NodeId, Step<R>)>, n: nat)
    requires
        forall|i: int| 0 <= i < steps.len() ==> (#[trigger] steps[i]).0 < n,
    ensures
        names_nodes(told(steps), n),
    decreases steps.len(),
{
    if steps.len() > 0 {
        let rest = steps.drop_last();
        assert forall|i: int| 0 <= i < rest.len() implies (#[trigger] rest[i]).0 < n by {
            assert(rest[i] == steps[i]);
        }
        told_names_nodes(rest, n);
        assert(steps[steps.len() - 1].0 < n);
        let all = told(steps);
        let before = told(rest);
        assert forall|i: int| 0 <= i < all.len() implies node_of(#[trigger] all[i]) < n by {
            if i < before.len() {
                assert(all[i] == before[i]);
            }
        }
    }
}

impl<R: Real> EngineModel<R> {
    /// Whether a step names a node, a live one where it leaves a cache.
    pub open spec fn sound_step(self, s: (NodeId, Step<R>)) -> bool {
        &&& s.0 < self.trie.nodes.len()
        &&& s.1.leaves_cache() ==> self.trie.nodes[s.0 as int].alive
    }

    /// Whether all steps name nodes, live ones where they leave a cache.
    pub open spec fn sound(self, steps: Seq<(NodeId, Step<R>)>) -> bool {
        forall|i: int| 0 <= i < steps.len() ==> self.sound_step(#[trigger] steps[i])
    }

    /// Another state of a node's own keeps the engine's invariant.
    pub proof fn with_node_is_wf(self, id: int, n: NodeModel<R>)
        requires
            self.wf(),
            0 <= id < self.trie.nodes.len(),
            n.edge == self.trie.nodes[id].edge,
            n.parent == self.trie.nodes[id].parent,
            n.children == self.trie.nodes[id].children,
            n.depth_blocks == self.trie.nodes[id].depth_blocks,
            n.alive == self.trie.nodes[id].alive,
            n.alive || n.state is Uncached,
        ensures
            self.with_node(id, n).wf(),
    {
        self.trie.with_node_is_wf(id, n);
        let t = self.with_node(id, n).trie;
        assert forall|k: int| 0 <= k < t.nodes.len() implies #[trigger] t.tokens(k)
            <= u64::MAX by {
            assert(self.trie.tokens(k) <= u64::MAX);
        }
    }

    /// Steps leave every node in its place, alive or not, with all but what is
    /// known of its cache.
    pub proof fn carried_keeps_alive(self, steps: Seq<(NodeId, Step<R>)>)
        requires
            self.sound(steps),
        ensures
            self.carried(steps).trie.nodes.len() == self.trie.nodes.len(),
            self.carried(steps).prices == self.prices,
            self.carried(steps).cfg == self.cfg,
            forall|id: int|
                0 <= id < self.trie.nodes.len() ==> {
                    let m = #[trigger] self.carried(steps).trie.nodes[id];
                    m == NodeModel {
                        state: m.state,
                        last_flip: m.last_flip,
                        last_delete: m.last_delete,
                        ahead: m.ahead,
                        ..self.trie.nodes[id]
                    }
                },
        decreases steps.len(),
    {
        if steps.len() > 0 {
            let rest = steps.drop_last();
            assert forall|i: int| 0 <= i < rest.len() implies self.sound_step(
                #[trigger] rest[i],
            ) by {
                assert(rest[i] == steps[i]);
            }
            self.carried_keeps_alive(rest);
            assert(self.sound_step(steps[steps.len() - 1]));
        }
    }

    /// The steps of a pass are those of the nodes that are not to be kept as
    /// they are, in ascending order.
    pub proof fn steps_are_exact(self, pass: Pass<R>, upto: nat, now: R)
        requires
            upto <= self.trie.nodes.len() <= usize::MAX,
        ensures
            forall|i: int|
                0 <= i < self.steps(pass, upto, now).len() ==> {
                    let (id, step) = #[trigger] self.steps(pass, upto, now)[i];
                    id < upto && step == self.step(pass, id as int, now) && !(step is Keep)
                },
            forall|i: int, j: int|
                0 <= i < j < self.steps(pass, upto, now).len() ==> self.steps(pass, upto, now)[i].0
                    < self.steps(pass, upto, now)[j].0,
        decreases upto,
    {
        if upto > 0 {
            self.steps_are_exact(pass, (upto - 1) as nat, now);
        }
    }

    /// A pass of a tick leaves a cache only at live nodes.
    pub proof fn steps_are_sound(self, pass: Pass<R>, now: R)
        requires
            self.wf(),
        ensures
            self.sound(self.all_steps(pass, now)),
    {
        let n = self.trie.nodes.len();
        self.steps_are_exact(pass, n, now);
        let steps = self.all_steps(pass, now);
        assert forall|i: int| 0 <= i < steps.len() implies self.sound_step(
            #[trigger] steps[i],
        ) by {
            let (id, step) = steps[i];
            assert(id < n && step == self.step(pass, id as int, now));
            let node = self.trie.nodes[id as int];
            if !node.alive {
                assert(node.state is Uncached);
            }
        }
    }

    /// Garbage collection keeps the engine's invariant.
    pub proof fn collected_is_wf(self, now: R)
        requires
            self.wf(),
        ensures
            self.collected(now).wf(),
            self.trie.thinned(
                self.collected(now).trie,
                now,
                self.cfg.gc_min_lambda,
                self.cfg.gc_min_idle_hours,
            ),
    {
        let (min_lambda, min_idle) = (self.cfg.gc_min_lambda, self.cfg.gc_min_idle_hours);
        self.trie.gc_is_exact(now, min_lambda, min_idle);
        let t = self.collected(now).trie;
        assert forall|id: int| 0 <= id < t.nodes.len() implies #[trigger] t.tokens(id)
            <= u64::MAX by {
            assert(self.trie.thinned_node(t.nodes[id], id, now, min_lambda, min_idle));
            assert(self.trie.tokens(id) <= u64::MAX);
        }
    }

    /// What is given up on a path leaves every live cache as it was.
    pub proof fn swept_keeps_live(self, path: Seq<NodeId>, id: int, now: R)
        requires
            0 <= id < self.trie.nodes.len(),
            forall|k: int|
                0 <= k < path.len() ==> (#[trigger] path[k]) < self.trie.nodes.len(),
        ensures
            self.swept(path, now).trie.nodes.len() == self.trie.nodes.len(),
            live_cache(self.swept(path, now).trie.nodes[id], now) == live_cache(
                self.trie.nodes[id],
                now,
            ),
        decreases path.len(),
    {
        if path.len() > 0 {
            let rest = path.drop_last();
            assert forall|k: int| 0 <= k < rest.len() implies (#[trigger] rest[k])
                < self.trie.nodes.len() by {
                assert(rest[k] == path[k]);
            }
            self.swept_keeps_live(rest, id, now);
            assert(path[path.len() - 1] < self.trie.nodes.len());
            let last = path.last() as int;
            self.swept_keeps_live(rest, last, now);
        }
    }

    /// What is given up on a path changes nothing but cache states.
    pub proof fn swept_keeps_place(self, path: Seq<NodeId>, now: R)
        requires
            forall|k: int|
                0 <= k < path.len() ==> (#[trigger] path[k]) < self.trie.nodes.len(),
        ensures
            self.swept(path, now).prices == self.prices,
            self.swept(path, now).cfg == self.cfg,
            self.swept(path, now).trie == (TrieModel {
                nodes: self.swept(path, now).trie.nodes,
                ..self.trie
            }),
            self.swept(path, now).trie.nodes.len() == self.trie.nodes.len(),
            forall|id: int|
                0 <= id < self.trie.nodes.len() ==> {
                    let m = #[trigger] self.swept(path, now).trie.nodes[id];
                    m == self.trie.nodes[id] || m == cleared(self.trie.nodes[id], now)
                },
        decreases path.len(),
    {
        if path.len() > 0 {
            let rest = path.drop_last();
            assert forall|k: int| 0 <= k < rest.len() implies (#[trigger] rest[k])
                < self.trie.nodes.len() by {
                assert(rest[k] == path[k]);
            }
            self.swept_keeps_place(rest, now);
            assert(path[path.len() - 1] < self.trie.nodes.len());
        }
    }

    /// The deepest live cache of a path is at one of its nodes.
    pub proof fn deepest_live_is_on_path(self, path: Seq<NodeId>, now: R)
        ensures
            match self.deepest_live(path, now) {
                Some(id) => path.contains(id) && live_cache(self.trie.nodes[id as int], now),
                None => forall|k: int|
                    0 <= k < path.len() ==> !live_cache(
                        self.trie.nodes[#[trigger] path[k] as int],
                        now,
                    ),
            },
        decreases path.len(),
    {
        if path.len() > 0 {
            let rest = path.drop_last();
            self.deepest_live_is_on_path(rest, now);
            if live_cache(self.trie.nodes[path.last() as int], now) {
                assert(path[path.len() - 1] == path.last());
            } else {
                match self.deepest_live(rest, now) {
                    Some(id) => {
                        let k = choose|k: int| 0 <= k < rest.len() && rest[k] == id;
                        assert(path[k] == id);
                    },
                    None => {
                        assert forall|k: int| 0 <= k < path.len() implies !live_cache(
                            self.trie.nodes[#[trigger] path[k] as int],
                            now,
                        ) by {
                            if k < rest.len() {
                                assert(rest[k] == path[k]);
                            }
                        }
                    },
                }
            }
        }
    }

    /// The deepest create in flight on a path is one.
    pub proof fn deepest_pending_is_pending(self, path: Seq<NodeId>)
        ensures
            match self.deepest_pending(path) {
                Some(id) => path.contains(id) && self.trie.nodes[id as int].state is Pending,
                None => true,
            },
        decreases path.len(),
    {
        if path.len() > 0 {
            let rest = path.drop_last();
            self.deepest_pending_is_pending(rest);
            if self.trie.nodes[path.last() as int].state is Pending {
                assert(path[path.len() - 1] == path.last());
            } else if let Some(id) = self.deepest_pending(rest) {
                let k = choose|k: int| 0 <= k < rest.len() && rest[k] == id;
                assert(path[k] == id);
            }
        }
    }

    /// What a return teaches changes neither prices nor parameters.
    pub proof fn returned_keeps_rules(self, blocks: Seq<u64>, now: R)
        ensures
            self.returned(blocks, now).prices == self.prices,
            self.returned(blocks, now).cfg == self.cfg,
    {
        self.taught_keeps_rules(self.trie.peeked_path(0, blocks), now);
    }

    proof fn taught_keeps_rules(self, ids: Seq<NodeId>, now: R)
        ensures
            self.taught(ids, now).prices == self.prices,
            self.taught(ids, now).cfg == self.cfg,
        decreases ids.len(),
    {
        if ids.len() > 0 {
            self.taught_keeps_rules(ids.drop_last(), now);
        }
    }

    /// A walk keeps the engine's invariant and every cache state; the nodes it
    /// passes are live.
    pub proof fn walked_is_wf(self, blocks: Seq<u64>, now: R)
        requires
            self.wf(),
            blocks.len() <= u64::MAX,
            blocks.len() * self.cfg.block_tokens <= u64::MAX,
        ensures
            ({
                let (t, path) = self.trie.observed_path(0, blocks, now);
                &&& (EngineModel { trie: t, ..self }).wf()
                &&& forall|k: int| 0 <= k < path.len() ==> t.live(#[trigger] path[k] as int)
                &&& t.nodes.len() >= self.trie.nodes.len()
                &&& forall|id: int|
                    0 <= id < t.nodes.len() ==> (#[trigger] t.nodes[id]).state == if id
                        < self.trie.nodes.len() {
                        self.trie.nodes[id].state
                    } else {
                        CacheState::Uncached
                    }
            }),
    {
        self.trie.walk_fits(0, blocks, now);
        self.trie.walk_is_kept(0, blocks, now);
        self.trie.walk_is_sized(blocks, now);
        let (t, path) = self.trie.observed_path(0, blocks, now);
        assert forall|k: int| 0 <= k < path.len() implies t.live(#[trigger] path[k] as int) by {
            assert(t.passed(path[k], blocks[k], k + 1));
        }
        assert forall|id: int| 0 <= id < t.nodes.len() implies (#[trigger] t.nodes[id]).state
            == if id < self.trie.nodes.len() {
            self.trie.nodes[id].state
        } else {
            CacheState::Uncached
        } by {
            if self.trie.live(id) {
                assert(self.trie.keeps_node(t, id));
            } else {
                if id < self.trie.nodes.len() {
                    assert(!self.trie.nodes[id].alive);
                }
                if t.live(id) {
                    assert(new_node(t.nodes[id]));
                } else {
                    assert(!t.nodes[id].alive);
                }
            }
        }
    }

    /// A pass keeps the invariant and tells of nodes of the trie only.
    pub proof fn pass_is_wf(self, pass: Pass<R>, now: R)
        requires
            self.wf(),
        ensures
            self.passed(pass, now).wf(),
            self.passed(pass, now).trie.nodes.len() == self.trie.nodes.len(),
            self.passed(pass, now).prices == self.prices,
            self.passed(pass, now).cfg == self.cfg,
            names_nodes(told(self.all_steps(pass, now)), self.trie.nodes.len()),
    {
        let steps = self.all_steps(pass, now);
        self.steps_are_sound(pass, now);
        self.carried_keeps_alive(steps);
        self.carried_is_wf(steps);
        assert forall|i: int| 0 <= i < steps.len() implies (#[trigger] steps[i]).0
            < self.trie.nodes.len() by {
            assert(self.sound_step(steps[i]));
        }
        told_names_nodes(steps, self.trie.nodes.len());
    }

    /// Sound steps keep the invariant.
    pub proof fn carried_is_wf(self, steps: Seq<(NodeId, Step<R>)>)
        requires
            self.wf(),
            self.sound(steps),
        ensures
            self.carried(steps).wf(),
        decreases steps.len(),
    {
        if steps.len() > 0 {
            let rest = steps.drop_last();
            assert forall|i: int| 0 <= i < rest.len() implies self.sound_step(
                #[trigger] rest[i],
            ) by {
                assert(rest[i] == steps[i]);
            }
            self.carried_is_wf(rest);
            self.carried_keeps_alive(rest);
            let m = self.carried(rest);
            let (id, step) = steps.last();
            assert(self.sound_step(steps[steps.len() - 1]));
            assert(m.trie.nodes[id as int].alive == self.trie.nodes[id as int].alive);
            m.with_node_is_wf(id as int, step.node(m.trie.nodes[id as int]));
        }
    }

    /// A tick keeps the invariant and tells of nodes of the trie only.
    pub proof fn tick_names_nodes(self, now: R)
        requires
            self.wf(),
        ensures
            self.ticked(now).0.wf(),
            self.ticked(now).0.trie.nodes.len() == self.trie.nodes.len(),
            self.ticked(now).0.prices == self.prices,
            self.ticked(now).0.cfg == self.cfg,
            names_nodes(self.ticked(now).1, self.trie.nodes.len()),
    {
        let n = self.trie.nodes.len();
        self.pass_is_wf(Pass::Timeouts, now);
        let a = self.passed(Pass::Timeouts, now);
        if a.prices.tau_hold() is Some {
            a.pass_is_wf(Pass::Retirements, now);
            let b = a.passed(Pass::Retirements, now);
            b.pass_is_wf(Pass::Holds, now);
            let c = b.passed(Pass::Holds, now);
            c.pass_is_wf(Pass::PreCreates, now);
            let d = c.passed(Pass::PreCreates, now);
            d.collected_is_wf(now);
            let x = told(a.all_steps(Pass::Retirements, now));
            let y = told(b.all_steps(Pass::Holds, now));
            let z = told(c.all_steps(Pass::PreCreates, now));
            let all = a.managed(now).1;
            assert(all == x + y + z);
            assert forall|i: int| 0 <= i < all.len() implies node_of(#[trigger] all[i]) < n by {
                if i < x.len() {
                    assert(all[i] == x[i]);
                } else if i < x.len() + y.len() {
                    assert(all[i] == y[i - x.len()]);
                } else {
                    assert(all[i] == z[i - x.len() - y.len()]);
                }
            }
        } else {
            a.collected_is_wf(now);
        }
    }

    /// The cache to create is on the path.
    pub proof fn choice_is_on_path(self, path: Seq<NodeId>, covered: u64, now: R)
        ensures
            match self.choice(path, covered, now) {
                Some(id) => {
                    &&& path.contains(id)
                    &&& self.trie.nodes[id as int].state is Uncached
                    &&& self.tokens(id as int) >= self.prices.min_cacheable_tokens
                    &&& self.tokens(id as int) > covered
                    &&& self.earns(id as int, now)
                },
                None => true,
            },
        decreases path.len(),
    {
        if path.len() > 0 {
            let rest = path.drop_last();
            self.choice_is_on_path(rest, covered, now);
            assert(path[path.len() - 1] == path.last());
            if let Some(id) = self.choice(rest, covered, now) {
                let k = choose|k: int| 0 <= k < rest.len() && rest[k] == id;
                assert(path[k] == id);
            }
        }
    }

    /// What a return teaches keeps the invariant, every node in its place and
    /// every cache state.
    pub proof fn taught_is_wf(self, ids: Seq<NodeId>, now: R)
        requires
            self.wf(),
            forall|k: int| 0 <= k < ids.len() ==> self.trie.live(#[trigger] ids[k] as int),
        ensures
            self.taught(ids, now).wf(),
            self.taught(ids, now).trie.nodes.len() == self.trie.nodes.len(),
            forall|id: int|
                0 <= id < self.trie.nodes.len() ==> {
                    let m = #[trigger] self.taught(ids, now).trie.nodes[id];
                    m == NodeModel {
                        hold_hint: m.hold_hint,
                        lulls: m.lulls,
                        ..self.trie.nodes[id]
                    }
                },
        decreases ids.len(),
    {
        if ids.len() > 0 {
            let rest = ids.drop_last();
            assert forall|k: int| 0 <= k < rest.len() implies self.trie.live(
                #[trigger] rest[k] as int,
            ) by {
                assert(rest[k] == ids[k]);
            }
            self.taught_is_wf(rest, now);
            let m = self.taught(rest, now);
            let id = ids.last() as int;
            assert(self.trie.live(ids[ids.len() - 1] as int));
            let all = self.taught(ids, now);
            m.with_node_is_wf(id, all.trie.nodes[id]);
        }
    }

    /// A request keeps the invariant, and what is told of it is about a node of
    /// its path.
    pub proof fn observe_names_nodes(self, blocks: Seq<u64>, now: R)
        requires
            self.wf(),
            blocks.len() <= u64::MAX,
            blocks.len() * self.cfg.block_tokens <= u64::MAX,
        ensures
            ({
                let (m, seen) = self.observed(blocks, now);
                &&& names_nodes(seen.actions, m.trie.nodes.len())
                &&& m.trie.nodes.len() >= self.trie.nodes.len()
                &&& m.prices == self.prices
                &&& m.cfg == self.cfg
            }),
    {
        self.returned_is_wf(blocks, now);
        self.returned(blocks, now).trie.walk_fits(0, blocks, now);
        let a = self.returned(blocks, now);
        let ids = self.trie.peeked_path(0, blocks);
        self.trie.peeked_is_live(0, blocks);
        assert forall|k: int| 0 <= k < ids.len() implies self.trie.live(
            #[trigger] ids[k] as int,
        ) by {
            assert(ids.contains(ids[k]));
        }
        self.returned_keeps_rules(blocks, now);
        self.taught_is_wf(ids, now);
        let (t, path) = a.trie.observed_path(0, blocks, now);
        let b = EngineModel { trie: t, ..a };
        a.trie.wf_is_in_range();
        a.trie.walk_in_range(0, blocks, now);
        assert forall|k: int| 0 <= k < path.len() implies (#[trigger] path[k]) < t.nodes.len() by {
            assert(path.contains(path[k]));
        }
        b.swept_keeps_place(path, now);
        let c = b.swept(path, now);
        let deepest = b.deepest_live(path, now);
        let choice = c.creation(path, deepest, now);
        c.choice_is_on_path(path, c.covered_tokens(path, deepest), now);
    }
}

} // verus!
