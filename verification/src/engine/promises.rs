//! What the engine promises its callers.
use vstd::prelude::*;

use crate::engine::laws::{names_nodes, node_of};
use crate::engine::model::{
    hold_of, learned, live_cache, mean_lull, picked, regular, told, EngineModel, Pass, Step,
};
use crate::engine::{default_config, Action};
use crate::fixed::Fixed;
use crate::number::{frac, Real};
use crate::plan::laws::plan_is_sane;
use crate::plan::{mtok_of, Placement};
use crate::price::Regime;
use crate::stats::long_gap;
use crate::trie::laws::new_node;
use crate::trie::{CacheState, NodeId, NodeModel};

verus! {

/// Whether steps are told of in an action.
pub open spec fn tells<R: Real>(steps: Seq<(NodeId, Step<R>)>, a: Action<R>) -> bool {
    exists|i: int| 0 <= i < steps.len() && (#[trigger] steps[i]).1.action(steps[i].0) == Some(a)
}

/// What is told of steps is what they call for, and nothing else.
pub proof fn told_is_exact<R: Real>(steps: Seq<(NodeId, Step<R>)>, a: Action<R>)
    ensures
        told(steps).contains(a) <==> tells(steps, a),
    decreases steps.len(),
{
    if steps.len() > 0 {
        let rest = steps.drop_last();
        let (id, step) = steps.last();
        told_is_exact(rest, a);
        let all = told(steps);
        let before = told(rest);
        if all.contains(a) {
            let k = choose|k: int| 0 <= k < all.len() && all[k] == a;
            if k < before.len() {
                assert(before[k] == a);
                assert(before.contains(a));
                let i = choose|i: int|
                    0 <= i < rest.len() && (#[trigger] rest[i]).1.action(rest[i].0) == Some(a);
                assert(steps[i].1.action(steps[i].0) == Some(a));
            } else {
                assert(steps[steps.len() - 1].1.action(steps[steps.len() - 1].0) == Some(a));
            }
        }
        if tells(steps, a) {
            let i = choose|i: int|
                0 <= i < steps.len() && (#[trigger] steps[i]).1.action(steps[i].0) == Some(a);
            if i < rest.len() {
                assert(rest[i].1.action(rest[i].0) == Some(a));
                assert(before.contains(a));
                let k = choose|k: int| 0 <= k < before.len() && before[k] == a;
                assert(all[k] == a);
            } else {
                assert(all[all.len() - 1] == a);
            }
        }
    }
}

/// What is told in three parts is told in one of them.
proof fn joined_holds<A>(x: Seq<A>, y: Seq<A>, z: Seq<A>, e: A)
    ensures
        (x + y + z).contains(e) <==> x.contains(e) || y.contains(e) || z.contains(e),
{
    let all = x + y + z;
    if all.contains(e) {
        let k = choose|k: int| 0 <= k < all.len() && all[k] == e;
        if k < x.len() {
            assert(x[k] == e);
        } else if k < x.len() + y.len() {
            assert(y[k - x.len()] == e);
        } else {
            assert(z[k - x.len() - y.len()] == e);
        }
    }
    if x.contains(e) {
        let k = choose|k: int| 0 <= k < x.len() && x[k] == e;
        assert(all[k] == e);
    }
    if y.contains(e) {
        let k = choose|k: int| 0 <= k < y.len() && y[k] == e;
        assert(all[x.len() + k] == e);
    }
    if z.contains(e) {
        let k = choose|k: int| 0 <= k < z.len() && z[k] == e;
        assert(all[x.len() + y.len() + k] == e);
    }
}

impl<R: Real> EngineModel<R> {
    /// Steps with ascending ids leave each node as its own step says.
    proof fn carried_pointwise(self, steps: Seq<(NodeId, Step<R>)>, id: int)
        requires
            self.sound(steps),
            0 <= id < self.trie.nodes.len() <= usize::MAX,
            forall|i: int, j: int| 0 <= i < j < steps.len() ==> steps[i].0 < steps[j].0,
        ensures
            forall|i: int|
                0 <= i < steps.len() && (#[trigger] steps[i]).0 == id ==> self.carried(
                    steps,
                ).trie.nodes[id] == steps[i].1.node(self.trie.nodes[id]),
            (forall|i: int| 0 <= i < steps.len() ==> (#[trigger] steps[i]).0 != id)
                ==> self.carried(steps).trie.nodes[id] == self.trie.nodes[id],
        decreases steps.len(),
    {
        if steps.len() > 0 {
            let rest = steps.drop_last();
            assert forall|i: int| 0 <= i < rest.len() implies self.sound_step(
                #[trigger] rest[i],
            ) by {
                assert(rest[i] == steps[i]);
            }
            self.carried_pointwise(rest, id);
            self.carried_keeps_alive(rest);
            let last = steps.len() - 1;
            assert(self.sound_step(steps[last]));
            if steps[last].0 == id {
                assert forall|i: int| 0 <= i < rest.len() implies (#[trigger] rest[i]).0 != id by {
                    assert(rest[i] == steps[i]);
                }
            } else {
                assert forall|i: int| 0 <= i < steps.len() && (#[trigger] steps[i]).0
                    == id implies self.carried(steps).trie.nodes[id] == steps[i].1.node(
                    self.trie.nodes[id],
                ) by {
                    assert(rest[i] == steps[i]);
                }
                if forall|i: int| 0 <= i < steps.len() ==> (#[trigger] steps[i]).0 != id {
                    assert forall|i: int| 0 <= i < rest.len() implies (#[trigger] rest[i]).0
                        != id by {
                        assert(rest[i] == steps[i]);
                    }
                }
            }
        }
    }

    /// Every node that is not to be kept as it is has its step in the pass.
    proof fn steps_are_complete(self, pass: Pass<R>, upto: nat, now: R, id: int)
        requires
            0 <= id < upto <= self.trie.nodes.len() <= usize::MAX,
            !(self.step(pass, id, now) is Keep),
        ensures
            self.steps(pass, upto, now).contains((id as usize, self.step(pass, id, now))),
        decreases upto,
    {
        let all = self.steps(pass, upto, now);
        let entry = (id as usize, self.step(pass, id, now));
        if id == upto - 1 {
            assert(all[all.len() - 1] == entry);
        } else {
            self.steps_are_complete(pass, (upto - 1) as nat, now, id);
            let before = self.steps(pass, (upto - 1) as nat, now);
            let i = choose|i: int| 0 <= i < before.len() && before[i] == entry;
            assert(all[i] == entry);
        }
    }

    /// A pass does to every node what its rule says, and tells of exactly that.
    pub proof fn pass_is_pointwise(self, pass: Pass<R>, now: R)
        requires
            self.wf(),
        ensures
            forall|id: int|
                0 <= id < self.trie.nodes.len() ==> #[trigger] self.passed(
                    pass,
                    now,
                ).trie.nodes[id] == self.step(pass, id, now).node(self.trie.nodes[id]),
            forall|a: Action<R>| #[trigger]
                told(self.all_steps(pass, now)).contains(a) ==> {
                    let id = node_of(a);
                    &&& id < self.trie.nodes.len()
                    &&& self.step(pass, id as int, now).action(id) == Some(a)
                },
            forall|id: int|
                0 <= id < self.trie.nodes.len() && (#[trigger] self.step(
                    pass,
                    id,
                    now,
                )).action(id as usize) is Some ==> told(self.all_steps(pass, now)).contains(
                    self.step(pass, id, now).action(id as usize)->0,
                ),
    {
        let n = self.trie.nodes.len();
        let steps = self.all_steps(pass, now);
        self.steps_are_exact(pass, n, now);
        self.steps_are_sound(pass, now);
        assert forall|id: int| 0 <= id < n implies #[trigger] self.passed(
            pass,
            now,
        ).trie.nodes[id] == self.step(pass, id, now).node(self.trie.nodes[id]) by {
            self.carried_pointwise(steps, id);
            if self.step(pass, id, now) is Keep {
                assert forall|i: int| 0 <= i < steps.len() implies (#[trigger] steps[i]).0
                    != id by {
                    let (k, s) = steps[i];
                    assert(s == self.step(pass, k as int, now) && !(s is Keep));
                }
            } else {
                self.steps_are_complete(pass, n, now, id);
                let entry = (id as usize, self.step(pass, id, now));
                let i = choose|i: int| 0 <= i < steps.len() && steps[i] == entry;
                assert(steps[i].0 == id);
            }
        }
        assert forall|a: Action<R>| #[trigger] told(steps).contains(a) implies ({
            let id = node_of(a);
            &&& id < n
            &&& self.step(pass, id as int, now).action(id) == Some(a)
        }) by {
            told_is_exact(steps, a);
            let i = choose|i: int|
                0 <= i < steps.len() && (#[trigger] steps[i]).1.action(steps[i].0) == Some(a);
            let (id, s) = steps[i];
            assert(id < n && s == self.step(pass, id as int, now));
            assert(node_of(a) == id);
        }
        assert forall|id: int| 0 <= id < n && (#[trigger] self.step(pass, id, now)).action(
            id as usize,
        ) is Some implies told(steps).contains(
            self.step(pass, id, now).action(id as usize)->0,
        ) by {
            let s = self.step(pass, id, now);
            let a = s.action(id as usize)->0;
            self.steps_are_complete(pass, n, now, id);
            let i = choose|i: int| 0 <= i < steps.len() && steps[i] == (id as usize, s);
            assert(steps[i].1.action(steps[i].0) == Some(a));
            told_is_exact(steps, a);
        }
    }

    /// What a tick does to the node `id`, pass by pass: each pass does what its
    /// rule says, and tells of it; collection at the end takes at most the node
    /// itself and edges.
    pub(crate) open(crate) spec fn tick_fits(self, now: R, id: int) -> bool {
        let a = self.passed(Pass::Timeouts, now);
        let b = a.passed(Pass::Retirements, now);
        let c = b.passed(Pass::Holds, now);
        let n = self.trie.nodes[id];
        let m = self.ticked(now).0.trie.nodes[id];
        let s = a.retire_step(id, now);
        let na = self.timeout_step(n, now).node(n);
        let nb = s.node(na);
        let u = self.hold_step(nb, now);
        let nc = u.node(nb);
        let v = self.warm_step(nc, now);
        let nd = v.node(nc);
        let all = self.ticked(now).1;
        if self.prices.tau_hold() is Some {
            &&& a.trie.nodes[id] == na
            &&& s is Keep || s is Retire && na.state is Cached
            &&& m == NodeModel { alive: m.alive, children: m.children, ..nd }
            &&& s.action(id as usize) is Some ==> all.contains(s.action(id as usize)->0)
            &&& u.action(id as usize) is Some ==> all.contains(u.action(id as usize)->0)
            &&& v.action(id as usize) is Some ==> all.contains(v.action(id as usize)->0)
            &&& forall|x: Action<R>| #[trigger]
                all.contains(x) && node_of(x) == id ==> {
                    ||| s.action(id as usize) == Some(x)
                    ||| u.action(id as usize) == Some(x)
                    ||| v.action(id as usize) == Some(x)
                }
        } else {
            &&& m == NodeModel { alive: m.alive, children: m.children, ..na }
            &&& all == Seq::<Action<R>>::empty()
        }
    }

    /// What a tick does, node by node.
    #[verifier::rlimit(60)]
    pub(crate) proof fn tick_node_by_node(self, now: R)
        requires
            self.wf(),
        ensures
            forall|id: int|
                0 <= id < self.trie.nodes.len() ==> #[trigger] self.tick_fits(now, id),
            names_nodes(self.ticked(now).1, self.trie.nodes.len()),
    {
        self.tick_names_nodes(now);
        self.pass_is_wf(Pass::Timeouts, now);
        self.pass_is_pointwise(Pass::Timeouts, now);
        let a = self.passed(Pass::Timeouts, now);
        if self.prices.tau_hold() is None {
            a.collected_is_wf(now);
            assert forall|id: int|
                0 <= id < self.trie.nodes.len() implies #[trigger] self.tick_fits(now, id) by {
                assert(a.trie.nodes[id] == self.step(Pass::Timeouts, id, now).node(
                    self.trie.nodes[id],
                ));
                assert(a.trie.thinned_node(
                    a.collected(now).trie.nodes[id],
                    id,
                    now,
                    a.cfg.gc_min_lambda,
                    a.cfg.gc_min_idle_hours,
                ));
            }
        } else {
            a.pass_is_wf(Pass::Retirements, now);
            a.pass_is_pointwise(Pass::Retirements, now);
            let b = a.passed(Pass::Retirements, now);
            b.pass_is_wf(Pass::Holds, now);
            b.pass_is_pointwise(Pass::Holds, now);
            let c = b.passed(Pass::Holds, now);
            c.pass_is_wf(Pass::PreCreates, now);
            c.pass_is_pointwise(Pass::PreCreates, now);
            let d = c.passed(Pass::PreCreates, now);
            d.collected_is_wf(now);
            let x = told(a.all_steps(Pass::Retirements, now));
            let y = told(b.all_steps(Pass::Holds, now));
            let z = told(c.all_steps(Pass::PreCreates, now));
            let all = self.ticked(now).1;
            assert(all == x + y + z);
            assert forall|e: Action<R>|
                all.contains(e) <==> #[trigger] x.contains(e) || y.contains(e) || z.contains(e) by {
                joined_holds(x, y, z, e);
            }
            assert forall|id: int|
                0 <= id < self.trie.nodes.len() implies #[trigger] self.tick_fits(now, id) by {
                a.retired_was_cached(id, now);
                assert(a.trie.nodes[id] == self.step(Pass::Timeouts, id, now).node(
                    self.trie.nodes[id],
                ));
                let s = a.step(Pass::Retirements, id, now);
                assert(b.trie.nodes[id] == s.node(a.trie.nodes[id]));
                let u = b.step(Pass::Holds, id, now);
                assert(c.trie.nodes[id] == u.node(b.trie.nodes[id]));
                let v = c.step(Pass::PreCreates, id, now);
                assert(d.trie.nodes[id] == v.node(c.trie.nodes[id]));
                assert(d.trie.thinned_node(
                    self.ticked(now).0.trie.nodes[id],
                    id,
                    now,
                    d.cfg.gc_min_lambda,
                    d.cfg.gc_min_idle_hours,
                ));
                a.passes_keep_place(now, id);
                if s.action(id as usize) is Some {
                    assert(x.contains(s.action(id as usize)->0));
                }
                if u.action(id as usize) is Some {
                    assert(y.contains(u.action(id as usize)->0));
                    joined_holds(x, y, z, u.action(id as usize)->0);
                }
                if v.action(id as usize) is Some {
                    assert(z.contains(v.action(id as usize)->0));
                    joined_holds(x, y, z, v.action(id as usize)->0);
                }
                assert forall|e: Action<R>| #[trigger] all.contains(e) && node_of(e) == id implies {
                    ||| s.action(id as usize) == Some(e)
                    ||| u.action(id as usize) == Some(e)
                    ||| v.action(id as usize) == Some(e)
                } by {
                    joined_holds(x, y, z, e);
                }
            }
        }
    }

    /// The passes of a tick leave the size of blocks alone.
    proof fn passes_keep_place(self, now: R, id: int)
        requires
            self.wf(),
        ensures
            self.passed(Pass::Retirements, now).passed(Pass::Holds, now).trie.block_tokens
                == self.trie.block_tokens,
    {
        self.pass_is_wf(Pass::Retirements, now);
        let b = self.passed(Pass::Retirements, now);
        b.pass_is_wf(Pass::Holds, now);
    }

    /// Retirement deletes only caches.
    proof fn retired_was_cached(self, id: int, now: R)
        requires
            self.wf(),
            0 <= id < self.trie.nodes.len(),
        ensures
            !(self.retire_step(id, now) is Keep) ==> self.trie.nodes[id].state is Cached,
    {
        self.covered_is_cached(id as usize, self.trie.nodes.len(), now);
    }

    proof fn covered_is_cached(self, a: NodeId, upto: nat, now: R)
        ensures
            self.covered(a, upto, now) is Some ==> self.trie.nodes[a as int].state is Cached,
        decreases upto,
    {
        if upto > 0 {
            self.covered_is_cached(a, (upto - 1) as nat, now);
            self.nearest_is_cached(upto - 1);
        }
    }

    /// The nearest cached ancestor is cached.
    pub proof fn nearest_is_cached(self, id: int)
        ensures
            self.nearest_cached(id) is Some ==> self.trie.nodes[self.nearest_cached(
                id,
            )->0 as int].state is Cached,
        decreases self.trie.nodes[id].depth_blocks,
    {
        match self.trie.nodes[id].parent {
            None => {},
            Some(p) => {
                if self.trie.nodes[p as int].depth_blocks < self.trie.nodes[id].depth_blocks {
                    self.nearest_is_cached(p as int);
                }
            },
        }
    }

    /// A tick never creates a cache for a request, and what it says of a node
    /// fits the node. It extends only what is cached, to the end of its hold. It
    /// deletes only what is cached, when the hold is over, when most gaps
    /// outlast it, or when deeper caches serve its traffic. It creates ahead
    /// only what is uncached, after three regular lulls, and within the lead before the predicted
    /// return.
    pub proof fn tick_says_what_it_does(self, now: R, a: Action<R>)
        requires
            self.wf(),
            self.ticked(now).1.contains(a),
        ensures
            self.prices.tau_hold() is Some,
            node_of(a) < self.trie.nodes.len(),
            ({
                let n = self.trie.nodes[node_of(a) as int];
                let m = self.ticked(now).0.trie.nodes[node_of(a) as int];
                match a {
                    Action::Create { node, tokens, ttl_hours } => false,
                    Action::PreCreate { node, tokens, ttl_hours } => {
                        &&& n.state is Uncached
                        &&& m.state == (CacheState::Pending { since_hours: now })
                        &&& regular(n.lulls)
                        &&& n.lulls.count >= 3
                        &&& n.stats.t_last.sum(mean_lull(n.lulls)).diff(
                            self.cfg.extend_lead_hours,
                        ).at_most(now)
                        &&& now.at_most(n.stats.t_last.sum(mean_lull(n.lulls)))
                        &&& tokens >= self.prices.min_cacheable_tokens
                        &&& tokens == self.tokens(node as int)
                        &&& ttl_hours == self.prices.tau_hold()->0
                    },
                    Action::Extend { node, expires_at_hours } => {
                        &&& n.state is Cached
                        &&& m.state is Cached
                        &&& m.state->expires_at_hours == expires_at_hours
                        &&& expires_at_hours == self.hold_until(n)
                    },
                    Action::Delete { node } => {
                        &&& n.state is Cached
                        &&& m.state is Uncached
                        &&& {
                            ||| self.hold_until(n).at_most(now)
                            ||| self.mostly_idle(n)
                            ||| self.passed(Pass::Timeouts, now).retire_step(
                                node as int,
                                now,
                            ) is Retire
                        }
                    },
                }
            }),
    {
        self.tick_node_by_node(now);
        let all = self.ticked(now).1;
        let k = choose|k: int| 0 <= k < all.len() && all[k] == a;
        assert(node_of(all[k]) < self.trie.nodes.len());
        let id = node_of(a) as int;
        assert(self.tick_fits(now, id));
        R::below_ranks_before(now, now);
    }

    /// What is told of steps names their nodes, in ascending order.
    proof fn told_ascends(self, pass: Pass<R>, upto: nat, now: R)
        requires
            upto <= usize::MAX,
        ensures
            ({
                let said = told(self.steps(pass, upto, now));
                &&& forall|i: int| 0 <= i < said.len() ==> node_of(#[trigger] said[i]) < upto
                &&& forall|i: int, j: int|
                    0 <= i < j < said.len() ==> node_of(#[trigger] said[i]) < node_of(
                        #[trigger] said[j],
                    )
            }),
        decreases upto,
    {
        if upto > 0 {
            let k = (upto - 1) as nat;
            self.told_ascends(pass, k, now);
            let step = self.step(pass, k as int, now);
            let before = told(self.steps(pass, k, now));
            let said = told(self.steps(pass, upto, now));
            if !(step is Keep) {
                let steps = self.steps(pass, upto, now);
                assert(steps.drop_last() =~= self.steps(pass, k, now));
                if let Some(a) = step.action(k as usize) {
                    assert(node_of(a) == k);
                    assert(said == before.push(a));
                    assert forall|i: int, j: int| 0 <= i < j < said.len() implies node_of(
                        #[trigger] said[i],
                    ) < node_of(#[trigger] said[j]) by {
                        assert(said[i] == before[i]);
                        if j < before.len() {
                            assert(said[j] == before[j]);
                        }
                    }
                    assert forall|i: int| 0 <= i < said.len() implies node_of(#[trigger] said[i])
                        < upto by {
                        if i < before.len() {
                            assert(said[i] == before[i]);
                        }
                    }
                }
            }
            assert forall|i: int| 0 <= i < said.len() implies node_of(#[trigger] said[i])
                < upto by {
                if i < before.len() {
                    assert(said[i] == before[i]);
                }
            }
        }
    }

    /// A tick names a node in one action at most.
    #[verifier::rlimit(60)]
    pub proof fn tick_names_each_node_once(self, now: R, i: int, j: int)
        requires
            self.wf(),
            0 <= i < j < self.ticked(now).1.len(),
        ensures
            node_of(self.ticked(now).1[i]) != node_of(self.ticked(now).1[j]),
    {
        R::below_ranks_before(now, now);
        self.tick_node_by_node(now);
        let all = self.ticked(now).1;
        let n = self.trie.nodes.len();
        let a = self.passed(Pass::Timeouts, now);
        let b = a.passed(Pass::Retirements, now);
        let c = b.passed(Pass::Holds, now);
        self.pass_is_wf(Pass::Timeouts, now);
        self.pass_is_pointwise(Pass::Timeouts, now);
        a.pass_is_wf(Pass::Retirements, now);
        a.pass_is_pointwise(Pass::Retirements, now);
        b.pass_is_wf(Pass::Holds, now);
        b.pass_is_pointwise(Pass::Holds, now);
        c.pass_is_pointwise(Pass::PreCreates, now);
        a.told_ascends(Pass::Retirements, n, now);
        b.told_ascends(Pass::Holds, n, now);
        c.told_ascends(Pass::PreCreates, n, now);
        let x = told(a.all_steps(Pass::Retirements, now));
        let y = told(b.all_steps(Pass::Holds, now));
        let z = told(c.all_steps(Pass::PreCreates, now));
        assert(all == x + y + z);
        let (p, q) = (x.len() as int, (x.len() + y.len()) as int);
        let id = node_of(all[i]);
        if node_of(all[j]) == id {
            assert(self.tick_fits(now, id as int));
            let s = a.step(Pass::Retirements, id as int, now);
            let u = b.step(Pass::Holds, id as int, now);
            let v = c.step(Pass::PreCreates, id as int, now);
            assert(b.trie.nodes[id as int] == s.node(a.trie.nodes[id as int]));
            assert(c.trie.nodes[id as int] == u.node(b.trie.nodes[id as int]));
            if i < p {
                assert(all[i] == x[i]);
                assert(x.contains(x[i]));
            } else if i < q {
                assert(all[i] == y[i - p]);
                assert(y.contains(y[i - p]));
            } else {
                assert(all[i] == z[i - q]);
            }
            if j < p {
                assert(all[j] == x[j]);
            } else if j < q {
                assert(all[j] == y[j - p]);
                assert(y.contains(y[j - p]));
            } else {
                assert(all[j] == z[j - q]);
                assert(z.contains(z[j - q]));
            }
        }
    }

    /// No cache is lost in silence: where a tick ends a cache, either the
    /// adapter is told to delete it, or the provider had let it expire.
    pub proof fn tick_loses_no_cache(self, now: R, id: int)
        requires
            self.wf(),
            0 <= id < self.trie.nodes.len(),
            self.trie.nodes[id].state is Cached,
            !(self.ticked(now).0.trie.nodes[id].state is Cached),
        ensures
            self.ticked(now).1.contains(Action::Delete { node: id as usize })
                || self.trie.nodes[id].state->expires_at_hours.at_most(now),
    {
        self.tick_node_by_node(now);
        assert(self.tick_fits(now, id));
    }

    /// The hold rule is kept: a tick deletes every cache whose hold is over, or
    /// most of whose gaps outlast it.
    pub proof fn tick_deletes_what_is_overdue(self, now: R, id: int)
        requires
            self.wf(),
            0 <= id < self.trie.nodes.len(),
            self.prices.tau_hold() is Some,
            self.trie.nodes[id].state is Cached,
            self.hold_until(self.trie.nodes[id]).at_most(now) || self.mostly_idle(
                self.trie.nodes[id],
            ),
        ensures
            self.ticked(now).1.contains(Action::Delete { node: id as usize }),
            self.ticked(now).0.trie.nodes[id].state is Uncached,
    {
        self.tick_node_by_node(now);
        assert(self.tick_fits(now, id));
        R::below_ranks_before(now, now);
    }

    /// A cache within its hold stays: a tick that comes before it expires keeps
    /// it, and extends it to the end of the hold where it is about to expire
    /// before.
    pub proof fn tick_keeps_what_is_held(self, now: R, id: int)
        requires
            self.wf(),
            0 <= id < self.trie.nodes.len(),
            self.prices.tau_hold() is Some,
            self.trie.nodes[id].state is Cached,
            !self.hold_until(self.trie.nodes[id]).at_most(now),
            !self.mostly_idle(self.trie.nodes[id]),
            !self.trie.nodes[id].state->expires_at_hours.at_most(now),
            self.passed(Pass::Timeouts, now).retire_step(id, now) is Keep,
        ensures
            ({
                let n = self.trie.nodes[id];
                let m = self.ticked(now).0.trie.nodes[id];
                let until = self.hold_until(n);
                let expires = n.state->expires_at_hours;
                &&& m.state is Cached
                &&& if expires.sum(frac(1, 1_000_000_000)).below(until) && expires.diff(
                    now,
                ).at_most(self.cfg.extend_lead_hours) {
                    &&& m.state->expires_at_hours == until
                    &&& self.ticked(now).1.contains(
                        Action::Extend { node: id as usize, expires_at_hours: until },
                    )
                } else {
                    m.state == n.state
                }
            }),
    {
        self.tick_node_by_node(now);
        assert(self.tick_fits(now, id));
    }

    /// A create that is never confirmed is given up: a tick past the timeout
    /// leaves the node without it.
    pub proof fn tick_gives_up_unconfirmed_creates(self, now: R, id: int)
        requires
            self.wf(),
            0 <= id < self.trie.nodes.len(),
            self.trie.nodes[id].state is Pending,
            self.cfg.pending_timeout_hours.below(
                now.diff(self.trie.nodes[id].state->since_hours),
            ),
        ensures
            self.ticked(now).0.trie.nodes[id].state is Uncached,
    {
        self.tick_node_by_node(now);
        assert(self.tick_fits(now, id));
        R::below_ranks_before(now, now);
    }

    /// A regular return is met: a tick within the lead before it creates the
    /// cache ahead.
    pub proof fn tick_meets_regular_returns(self, now: R, id: int)
        requires
            self.wf(),
            0 <= id < self.trie.nodes.len(),
            self.prices.tau_hold() is Some,
            self.trie.nodes[id].state is Uncached,
            self.warm_step(self.trie.nodes[id], now) is Warm,
        ensures
            self.ticked(now).1.contains(
                Action::PreCreate {
                    node: id as usize,
                    tokens: self.tokens(id),
                    ttl_hours: self.prices.tau_hold()->0,
                },
            ),
            self.ticked(now).0.trie.nodes[id].state == (CacheState::Pending { since_hours: now }),
    {
        self.tick_node_by_node(now);
        assert(self.tick_fits(now, id));
    }

    /// A request is answered with at most one creation, of a node of its path,
    /// for the hold time, at least as long as the minimum and longer than what
    /// the request reads from a cache. The node is pending from then on.
    pub proof fn observe_creates_at_most_one(self, blocks: Seq<u64>, now: R)
        requires
            self.wf(),
            blocks.len() <= u64::MAX,
            blocks.len() * self.cfg.block_tokens <= u64::MAX,
        ensures
            ({
                let (m, seen) = self.observed(blocks, now);
                &&& seen.actions.len() <= 1
                &&& seen.actions.len() == 1 ==> {
                    let id = node_of(seen.actions[0]);
                    &&& self.prices.tau_hold() is Some
                    &&& seen.actions[0] is Create
                    &&& seen.path.contains(id)
                    &&& seen.actions[0]->Create_ttl_hours == self.prices.tau_hold()->0
                    &&& seen.actions[0]->Create_tokens >= self.prices.min_cacheable_tokens
                    &&& seen.actions[0]->Create_tokens > seen.cached_tokens
                    &&& m.trie.nodes[id as int].state == (CacheState::Pending { since_hours: now })
                }
            }),
    {
        self.returned_is_wf(blocks, now);
        self.returned(blocks, now).trie.walk_fits(0, blocks, now);
        let a = self.returned(blocks, now);
        self.returned_is_wf(blocks, now);
        let (t, path) = a.trie.observed_path(0, blocks, now);
        let b = EngineModel { trie: t, ..a };
        a.walked_is_wf(blocks, now);
        let deepest = b.deepest_live(path, now);
        let c = b.swept(path, now);
        assert forall|k: int| 0 <= k < path.len() implies (#[trigger] path[k]) < t.nodes.len() by {
            assert(t.live(path[k] as int));
        }
        b.swept_keeps_place(path, now);
        c.choice_is_on_path(path, c.covered_tokens(path, deepest), now);
        if let Some(id) = c.creation(path, deepest, now) {
            let k = choose|k: int| 0 <= k < path.len() && path[k] == id;
            assert(path[k] < t.nodes.len());
        }
    }

    /// What a return teaches keeps the invariant and everything but the learned
    /// hold and the lulls.
    pub(crate) proof fn returned_is_wf(self, blocks: Seq<u64>, now: R)
        requires
            self.wf(),
        ensures
            self.returned(blocks, now).wf(),
            self.returned(blocks, now).prices == self.prices,
            self.returned(blocks, now).cfg == self.cfg,
            self.returned(blocks, now).trie.nodes.len() == self.trie.nodes.len(),
            forall|id: int|
                0 <= id < self.trie.nodes.len() ==> {
                    let m = #[trigger] self.returned(blocks, now).trie.nodes[id];
                    m == NodeModel {
                        hold_hint: m.hold_hint,
                        lulls: m.lulls,
                        ..self.trie.nodes[id]
                    }
                },
    {
        let ids = self.trie.peeked_path(0, blocks);
        self.trie.peeked_is_live(0, blocks);
        assert forall|k: int| 0 <= k < ids.len() implies self.trie.live(
            #[trigger] ids[k] as int,
        ) by {
            assert(ids.contains(ids[k]));
        }
        self.returned_keeps_rules(blocks, now);
        self.taught_is_wf(ids, now);
    }

    /// The leader of a batch never waits for its own write: where a request is
    /// told to wait, it is for another node than the one it creates.
    pub proof fn leader_never_waits_for_itself(self, blocks: Seq<u64>, now: R)
        ensures
            ({
                let seen = self.observed(blocks, now).1;
                seen.defer is Some && seen.actions.len() > 0 ==> node_of(seen.actions[0])
                    != seen.defer->0.node
            }),
    {
        let a = self.returned(blocks, now);
        let (t, path) = a.trie.observed_path(0, blocks, now);
        let b = EngineModel { trie: t, ..a };
        let deepest = b.deepest_live(path, now);
        let c = b.swept(path, now);
        c.choice_is_on_path(path, c.covered_tokens(path, deepest), now);
        c.deepest_pending_is_pending(path);
    }

    /// A request is told to wait only where micro-batching is on, for a write in
    /// flight on its path, and no longer than the deferral from when the write
    /// began.
    pub proof fn deferral_is_bounded(self, path: Seq<NodeId>, now: R)
        ensures
            match self.advice(path, now) {
                Some(d) => {
                    let since = self.trie.nodes[d.node as int].state->since_hours;
                    &&& self.cfg.enable_micro_batch
                    &&& path.contains(d.node)
                    &&& self.trie.nodes[d.node as int].state is Pending
                    &&& now.diff(since).below(self.cfg.micro_batch_defer_hours)
                    &&& d.until_hours == since.sum(self.cfg.micro_batch_defer_hours)
                },
                None => true,
            },
    {
        self.deepest_pending_is_pending(path);
    }

    /// The cache that a request is told to read is the deepest live one of its
    /// path; it is told of none only where the path has none.
    pub proof fn deepest_cache_is_read(self, path: Seq<NodeId>, now: R)
        ensures
            match self.deepest_live(path, now) {
                Some(id) => exists|k: int|
                    {
                        &&& 0 <= k < path.len()
                        &&& #[trigger] path[k] == id
                        &&& live_cache(self.trie.nodes[id as int], now)
                        &&& forall|j: int|
                            k < j < path.len() ==> !live_cache(
                                self.trie.nodes[#[trigger] path[j] as int],
                                now,
                            )
                    },
                None => forall|j: int|
                    0 <= j < path.len() ==> !live_cache(
                        self.trie.nodes[#[trigger] path[j] as int],
                        now,
                    ),
            },
        decreases path.len(),
    {
        self.deepest_live_is_on_path(path, now);
        if path.len() > 0 {
            let rest = path.drop_last();
            let last = path.len() - 1;
            if live_cache(self.trie.nodes[path.last() as int], now) {
                assert(path[last] == path.last());
            } else if let Some(id) = self.deepest_live(rest, now) {
                self.deepest_cache_is_read(rest, now);
                let k = choose|k: int|
                    {
                        &&& 0 <= k < rest.len()
                        &&& #[trigger] rest[k] == id
                        &&& live_cache(self.trie.nodes[id as int], now)
                        &&& forall|j: int|
                            k < j < rest.len() ==> !live_cache(
                                self.trie.nodes[#[trigger] rest[j] as int],
                                now,
                            )
                    };
                assert(path[k] == id);
                assert forall|j: int| k < j < path.len() implies !live_cache(
                    self.trie.nodes[#[trigger] path[j] as int],
                    now,
                ) by {
                    if j < last {
                        assert(rest[j] == path[j]);
                    }
                }
            }
        }
    }

    /// A confirmed create is a live cache for the hold time from then on.
    pub proof fn confirmed_cache_is_live(self, id: int, now: R, then: R)
        requires
            0 <= id < self.trie.nodes.len(),
            self.prices.tau_hold() is Some,
            self.trie.nodes[id].state is Pending,
        ensures
            live_cache(self.confirmed(id, now).trie.nodes[id], then) == then.below(
                now.sum(self.prices.tau_hold()->0),
            ),
    {
    }

    /// A reported failure leaves the node uncached, all other nodes as they
    /// were, and gives the provider a rest: no request creates at the node
    /// before the dwell is over.
    pub proof fn failure_reverts(self, id: int, now: R, path: Seq<NodeId>, covered: u64, then: R)
        requires
            self.wf(),
            0 <= id < self.trie.nodes.len(),
            then.diff(now).below(self.cfg.min_dwell_hours),
        ensures
            self.failed(id, now).trie.nodes[id].state is Uncached,
            forall|k: int|
                0 <= k < self.trie.nodes.len() && k != id ==> self.failed(id, now).trie.nodes[k]
                    == #[trigger] self.trie.nodes[k],
            self.failed(id, now).choice(path, covered, then) != Some(id as usize),
        decreases path.len(),
    {
        if path.len() > 0 {
            self.failure_reverts(id, now, path.drop_last(), covered, then);
        }
    }

    /// A plan is committed on the write-premium regime: every placement is
    /// cached afterwards, and what is cached besides was so before and has not
    /// dwelt long enough to be given up.
    #[verifier::rlimit(40)]
    pub proof fn plan_is_committed(self, now: R, id: int)
        requires
            self.wf(),
            self.prices.regime() == Regime::WritePremium,
            0 <= id < self.trie.nodes.len(),
        ensures
            ({
                let picks = self.ask(now).chosen();
                let m = self.planned(now).trie.nodes[id];
                &&& picked(picks, id as usize) ==> m.state is Cached
                &&& !picked(picks, id as usize) && m.state is Cached ==> {
                    &&& self.trie.nodes[id].state is Cached
                    &&& !self.dwelt(self.trie.nodes[id], now)
                }
            }),
    {
        let picks = self.ask(now).chosen();
        let pass = Pass::Displaced { picks };
        self.pass_is_wf(pass, now);
        self.pass_is_pointwise(pass, now);
        plan_is_sane(self.ask(now));
        let d = self.passed(pass, now);
        assert(d.trie.nodes[id] == self.step(pass, id, now).node(self.trie.nodes[id]));
        assert forall|i: int| 0 <= i < picks.len() implies (#[trigger] picks[i]).node
            < d.trie.nodes.len() by {
            assert(self.ask(now).pays(picks, i, self.prices.max_breakpoints as nat));
        }
        d.marked_pointwise(picks, now, id);
    }

    proof fn marked_pointwise(self, picks: Seq<Placement<R>>, now: R, id: int)
        requires
            0 <= id < self.trie.nodes.len() <= usize::MAX,
            forall|i: int|
                0 <= i < picks.len() ==> (#[trigger] picks[i]).node < self.trie.nodes.len(),
        ensures
            self.marked(picks, now).trie.nodes.len() == self.trie.nodes.len(),
            picked(picks, id as usize) ==> self.marked(picks, now).trie.nodes[id].state is Cached,
            !picked(picks, id as usize) ==> self.marked(picks, now).trie.nodes[id]
                == self.trie.nodes[id],
            self.trie.nodes[id].state is Cached ==> self.marked(
                picks,
                now,
            ).trie.nodes[id].state is Cached,
        decreases picks.len(),
    {
        if picks.len() > 0 {
            let rest = picks.drop_last();
            let last = picks.len() - 1;
            assert forall|i: int| 0 <= i < rest.len() implies (#[trigger] rest[i]).node
                < self.trie.nodes.len() by {
                assert(rest[i] == picks[i]);
            }
            self.marked_pointwise(rest, now, id);
            assert(picks[last].node < self.trie.nodes.len());
            if picked(rest, id as usize) {
                let i = choose|i: int| 0 <= i < rest.len() && (#[trigger] rest[i]).node == id;
                assert(picks[i].node == id);
            }
            if picked(picks, id as usize) && picks[last].node != id {
                let i = choose|i: int| 0 <= i < picks.len() && (#[trigger] picks[i]).node == id;
                assert(rest[i].node == id);
            }
            if picks[last].node == id {
                assert(picked(picks, id as usize));
            }
        }
    }

    /// What a confirmation does: a create in flight becomes a cache that the
    /// provider keeps for the hold time from then on, and nothing else changes; of
    /// a node without one nothing is confirmed.
    pub proof fn confirmation_is_exact(self, id: int, now: R, x: int)
        requires
            0 <= id < self.trie.nodes.len(),
            0 <= x < self.trie.nodes.len(),
        ensures
            ({
                let n = self.trie.nodes[x];
                let m = self.confirmed(id, now).trie.nodes[x];
                if x == id && n.state is Pending && self.prices.storage_per_mtok_hour is Some {
                    let tau = self.prices.input_per_mtok.quot(self.prices.storage_per_mtok_hour->0);
                    m == NodeModel {
                        state: CacheState::Cached {
                            expires_at_hours: now.sum(tau),
                            ttl_hours: tau,
                        },
                        ..n
                    }
                } else {
                    m == n
                }
            }),
    {
    }

    /// What a plan does to a node on the write-premium regime. A placement where
    /// no cache point was becomes one, of the tier that it names, for as long as
    /// the provider keeps it; one that was there stays as it was. A cache point
    /// that the plan does not hold is given up once it has dwelt. Of other nodes
    /// nothing changes.
    #[verifier::rlimit(40)]
    #[verifier::spinoff_prover]
    pub proof fn plan_commits_exactly(self, now: R, id: int)
        requires
            self.wf(),
            self.prices.storage_per_mtok_hour is None,
            self.prices.write_tiers.len() > 0,
            0 <= id < self.trie.nodes.len(),
        ensures
            ({
                let picks = self.ask(now).chosen();
                let n = self.trie.nodes[id];
                let m = self.planned(now).trie.nodes[id];
                &&& forall|i: int|
                    0 <= i < picks.len() && (#[trigger] picks[i]).node == id ==> if n.state is Cached {
                        m == n
                    } else {
                        m == NodeModel {
                            state: CacheState::Cached {
                                expires_at_hours: R::inf_of(),
                                ttl_hours: match picks[i].ttl_hours {
                                    Some(ttl) => ttl,
                                    None => R::int_of(0),
                                },
                            },
                            last_flip: now,
                            ..n
                        }
                    }
                &&& (forall|i: int| 0 <= i < picks.len() ==> (#[trigger] picks[i]).node != id)
                    ==> if n.state is Cached && self.cfg.min_dwell_hours.at_most(
                    now.diff(n.last_flip),
                ) {
                    m == NodeModel { state: CacheState::Uncached, last_flip: now, ..n }
                } else {
                    m == n
                }
            }),
    {
        let picks = self.ask(now).chosen();
        let pass = Pass::Displaced { picks };
        self.pass_is_wf(pass, now);
        self.pass_is_pointwise(pass, now);
        plan_is_sane(self.ask(now));
        let k = self.prices.max_breakpoints as nat;
        let d = self.passed(pass, now);
        assert(d.trie.nodes[id] == self.step(pass, id, now).node(self.trie.nodes[id]));
        assert forall|i: int| 0 <= i < picks.len() implies (#[trigger] picks[i]).node
            < d.trie.nodes.len() by {
            assert(self.ask(now).pays(picks, i, k));
        }
        d.marked_exactly(picks, now, id);
    }

    proof fn marked_exactly(self, picks: Seq<Placement<R>>, now: R, id: int)
        requires
            0 <= id < self.trie.nodes.len() <= usize::MAX,
            forall|i: int|
                0 <= i < picks.len() ==> (#[trigger] picks[i]).node < self.trie.nodes.len(),
            forall|i: int, j: int|
                0 <= i < j < picks.len() ==> (#[trigger] picks[i]).node
                    != (#[trigger] picks[j]).node,
        ensures
            self.marked(picks, now).trie.nodes.len() == self.trie.nodes.len(),
            ({
                let n = self.trie.nodes[id];
                let m = self.marked(picks, now).trie.nodes[id];
                &&& (forall|i: int| 0 <= i < picks.len() ==> (#[trigger] picks[i]).node != id)
                    ==> m == n
                &&& forall|i: int|
                    0 <= i < picks.len() && (#[trigger] picks[i]).node == id ==> m
                        == self.mark_step(picks[i], now).node(n)
            }),
        decreases picks.len(),
    {
        if picks.len() > 0 {
            let rest = picks.drop_last();
            let last = picks.len() - 1;
            assert forall|i: int| 0 <= i < rest.len() implies rest[i] == #[trigger] picks[i] by {}
            assert forall|i: int| 0 <= i < rest.len() implies (#[trigger] rest[i]).node
                < self.trie.nodes.len() by {
                assert(rest[i] == picks[i]);
            }
            assert forall|i: int, j: int| 0 <= i < j < rest.len() implies (#[trigger] rest[i]).node
                != (#[trigger] rest[j]).node by {
                assert(rest[i] == picks[i] && rest[j] == picks[j]);
            }
            self.marked_exactly(rest, now, id);
            assert(picks[last].node < self.trie.nodes.len());
            let n = self.trie.nodes[id];
            let m = self.marked(picks, now).trie.nodes[id];
            let b = self.marked(rest, now);
            if picks[last].node == id {
                assert forall|i: int| 0 <= i < rest.len() implies (#[trigger] rest[i]).node
                    != id by {
                    assert(rest[i] == picks[i]);
                    assert(picks[i].node != picks[last].node);
                }
                assert(b.trie.nodes[id] == n);
            }
            assert forall|i: int|
                0 <= i < picks.len() && (#[trigger] picks[i]).node == id implies m
                == self.mark_step(picks[i], now).node(n) by {
                if i < last {
                    assert(rest[i] == picks[i]);
                    assert(picks[i].node != picks[last].node);
                }
            }
            if forall|i: int| 0 <= i < picks.len() ==> (#[trigger] picks[i]).node != id {
                assert forall|i: int| 0 <= i < rest.len() implies (#[trigger] rest[i]).node
                    != id by {
                    assert(rest[i] == picks[i]);
                }
                assert(picks[last].node != id);
            }
        }
    }

    /// What a reported failure does: the node has no cache from now, and nothing
    /// else changes.
    pub proof fn failure_is_exact(self, id: int, now: R, x: int)
        requires
            0 <= id < self.trie.nodes.len(),
            0 <= x < self.trie.nodes.len(),
        ensures
            ({
                let n = self.trie.nodes[x];
                let m = self.failed(id, now).trie.nodes[x];
                m == if x == id {
                    NodeModel { state: CacheState::Uncached, last_flip: now, ..n }
                } else {
                    n
                }
            }),
            self.failed(id, now).prices == self.prices,
            self.failed(id, now).cfg == self.cfg,
    {
    }

    /// A plan weighs each prefix as the engine knows it now: at its decayed arrival
    /// rate and its cost at the current prices, by the lower threshold of the
    /// engine where it is cached and by the upper one where it is not.
    pub proof fn plan_weighs_what_is_known(self, now: R, id: int)
        requires
            self.wf(),
        ensures
            ({
                let ask = self.ask(now);
                let n = self.trie.nodes[id];
                &&& ask.trie == self.trie
                &&& ask.prices == self.prices
                &&& ask.rate(id) == n.stats.decayed_lambda(now, self.cfg.tau_decay_hours)
                &&& ask.cost(id) == self.prices.cost_rate(
                    (n.depth_blocks * self.cfg.block_tokens) as u64,
                    n.stats,
                    now,
                    self.cfg.tau_decay_hours,
                )
                &&& ask.threshold(id) == if n.state is Cached {
                    self.cfg.theta_down
                } else {
                    self.cfg.theta_up
                }
            }),
    {
    }

    /// Where storage is metered, or nothing can be bought, a plan is advice: it
    /// changes nothing.
    pub proof fn plan_is_advice(self, now: R)
        requires
            self.prices.storage_per_mtok_hour is Some || self.prices.write_tiers.len() == 0,
        ensures
            self.planned(now) == self,
    {
    }

    /// Tries with the same links find the same nodes.
    pub(crate) proof fn same_links_same_path(self, o: Self, cur: NodeId, blocks: Seq<u64>)
        requires
            self.trie.wf(),
            self.trie.live(cur as int),
            o.trie.nodes.len() == self.trie.nodes.len(),
            forall|id: int|
                0 <= id < self.trie.nodes.len() ==> (#[trigger] o.trie.nodes[id]).children
                    == self.trie.nodes[id].children,
        ensures
            o.trie.peeked_path(cur, blocks) == self.trie.peeked_path(cur, blocks),
        decreases blocks.len(),
    {
        assert(o.trie.nodes[cur as int].children == self.trie.nodes[cur as int].children);
        if blocks.len() > 0 && self.trie.nodes[cur as int].children.contains_key(blocks[0]) {
            assert(self.trie.leads(cur as int, blocks[0]));
            self.same_links_same_path(
                o,
                self.trie.nodes[cur as int].children[blocks[0]],
                blocks.drop_first(),
            );
        }
    }

    /// Nodes without a live cache at the end of a path change nothing about the
    /// deepest one.
    proof fn deepest_live_of_prefix(self, o: Self, path: Seq<NodeId>, found: Seq<NodeId>, now: R)
        requires
            found.is_prefix_of(path),
            forall|k: int|
                found.len() <= k < path.len() ==> !live_cache(
                    self.trie.nodes[#[trigger] path[k] as int],
                    now,
                ),
            forall|k: int|
                0 <= k < found.len() ==> self.trie.nodes[#[trigger] path[k] as int].state
                    == o.trie.nodes[path[k] as int].state,
        ensures
            self.deepest_live(path, now) == o.deepest_live(found, now),
        decreases path.len(),
    {
        if path.len() > 0 {
            let rest = path.drop_last();
            let last = path.len() - 1;
            if path.len() > found.len() {
                assert(!live_cache(self.trie.nodes[path[last] as int], now));
                assert(found =~= rest.subrange(0, found.len() as int));
                assert forall|k: int| found.len() <= k < rest.len() implies !live_cache(
                    self.trie.nodes[#[trigger] rest[k] as int],
                    now,
                ) by {
                    assert(rest[k] == path[k]);
                }
                assert forall|k: int| 0 <= k < found.len() implies self.trie.nodes[
                    #[trigger] rest[k] as int
                ].state == o.trie.nodes[rest[k] as int].state by {
                    assert(rest[k] == path[k]);
                }
                self.deepest_live_of_prefix(o, rest, found, now);
            } else {
                assert(found =~= path);
                assert(self.trie.nodes[path[last] as int].state == o.trie.nodes[
                    path[last] as int
                ].state);
                let less = found.drop_last();
                assert(less =~= rest.subrange(0, less.len() as int));
                assert forall|k: int| 0 <= k < less.len() implies self.trie.nodes[
                    #[trigger] rest[k] as int
                ].state == o.trie.nodes[rest[k] as int].state by {
                    assert(rest[k] == path[k]);
                }
                self.deepest_live_of_prefix(o, rest, less, now);
            }
        }
    }

    /// A quote charges what the request would be charged: it reads the cache
    /// that observing the same request at the same time reports.
    #[verifier::rlimit(60)]
    pub proof fn quote_matches_observation(self, blocks: Seq<u64>, total: u64, now: R)
        requires
            self.wf(),
            blocks.len() <= u64::MAX,
            blocks.len() * self.cfg.block_tokens <= u64::MAX,
        ensures
            ({
                let cached = crate::number::min_u64(
                    self.observed(blocks, now).1.cached_tokens,
                    total,
                );
                self.quoted(blocks, total, now) == mtok_of::<R>(cached).prod(
                    self.prices.cached_read_per_mtok,
                ).sum(mtok_of::<R>((total - cached) as u64).prod(self.prices.input_per_mtok))
            }),
    {
        self.returned_is_wf(blocks, now);
        self.returned(blocks, now).trie.walk_fits(0, blocks, now);
        let a = self.returned(blocks, now);
        self.returned_is_wf(blocks, now);
        let (t, path) = a.trie.observed_path(0, blocks, now);
        let b = EngineModel { trie: t, ..a };
        a.walked_is_wf(blocks, now);
        a.trie.walk_is_kept(0, blocks, now);
        a.trie.walk_adds_beyond(0, blocks, now);
        assert forall|id: int| 0 <= id < self.trie.nodes.len() implies (
        #[trigger] a.trie.nodes[id]).children == self.trie.nodes[id].children by {}
        self.same_links_same_path(a, 0, blocks);
        let found = self.trie.peeked_path(0, blocks);
        assert(found.is_prefix_of(path));
        assert forall|k: int| found.len() <= k < path.len() implies !live_cache(
            b.trie.nodes[#[trigger] path[k] as int],
            now,
        ) by {
            assert(!a.trie.live(path[k] as int));
            assert(t.live(path[k] as int));
            assert(new_node(t.nodes[path[k] as int]));
        }
        self.trie.peeked_is_live(0, blocks);
        assert forall|k: int| 0 <= k < found.len() implies b.trie.nodes[
            #[trigger] path[k] as int
        ].state == self.trie.nodes[path[k] as int].state by {
            assert(found[k] == path[k]) by {
                assert(found == path.subrange(0, found.len() as int));
            }
            assert(found.contains(found[k]));
            let id = path[k] as int;
            assert(self.trie.live(id));
            assert(t.nodes[id].state == a.trie.nodes[id].state);
        }
        b.deepest_live_of_prefix(self, path, found, now);
        // Lengths in tokens are the same before and after.
        let deepest = b.deepest_live(path, now);
        assert forall|k: int| 0 <= k < path.len() implies (#[trigger] path[k]) < t.nodes.len() by {
            assert(t.live(path[k] as int));
        }
        b.swept_keeps_place(path, now);
        let c = b.swept(path, now);
        if let Some(id) = deepest {
            self.deepest_live_is_on_path(found, now);
            assert(found.contains(id));
            assert(self.trie.live(id as int));
            assert(a.trie.live(id as int)) by {
                assert(a.trie.nodes[id as int].alive == self.trie.nodes[id as int].alive);
            }
            assert(a.trie.keeps_node(t, id as int));
            assert(c.trie.nodes[id as int].depth_blocks == self.trie.nodes[id as int].depth_blocks);
        }
    }

    /// The path of a request leads down from the root, one block at a time.
    pub proof fn observed_path_descends(self, blocks: Seq<u64>, now: R)
        requires
            self.wf(),
            blocks.len() <= u64::MAX,
            blocks.len() * self.cfg.block_tokens <= u64::MAX,
        ensures
            ({
                let (m, seen) = self.observed(blocks, now);
                forall|k: int|
                    0 <= k < seen.path.len() ==> {
                        let n = m.trie.nodes[#[trigger] seen.path[k] as int];
                        n.depth_blocks == k + 1 && n.edge == blocks[k] && n.alive
                    }
            }),
    {
        self.returned_is_wf(blocks, now);
        self.returned(blocks, now).trie.walk_fits(0, blocks, now);
        let a = self.returned(blocks, now);
        self.returned_is_wf(blocks, now);
        let (t, path) = a.trie.observed_path(0, blocks, now);
        let b = EngineModel { trie: t, ..a };
        a.trie.walk_is_kept(0, blocks, now);
        assert forall|k: int| 0 <= k < path.len() implies (#[trigger] path[k]) < t.nodes.len() by {
            assert(t.passed(path[k], blocks[k], k + 1));
        }
        b.swept_keeps_place(path, now);
        let deepest = b.deepest_live(path, now);
        let c = b.swept(path, now);
        let choice = c.creation(path, deepest, now);
        c.choice_is_on_path(path, c.covered_tokens(path, deepest), now);
        let m = c.created(choice, now);
        if let Some(x) = choice {
            let k = choose|k: int| 0 <= k < path.len() && path[k] == x;
            assert(path[k] < t.nodes.len());
        }
        assert forall|k: int| 0 <= k < path.len() implies ({
            let n = m.trie.nodes[#[trigger] path[k] as int];
            n.depth_blocks == k + 1 && n.edge == blocks[k] && n.alive
        }) by {
            assert(t.passed(path[k], blocks[k], k + 1));
        }
    }
}

/// The learned hold is no shorter than the default and no longer than the
/// longest worth paying for; a prefix that has learned nothing is held for the
/// default.
pub proof fn learned_hold_is_bounded(hint: Fixed, tau_hold: Fixed, tau_effective: Fixed)
    requires
        0 <= tau_hold.units <= tau_effective.units,
    ensures
        tau_hold.units <= hold_of(hint, tau_hold, tau_effective).units <= tau_effective.units,
        hint.units <= tau_hold.units ==> hold_of(hint, tau_hold, tau_effective) == tau_hold,
{
}

/// A premature delete lengthens the hold, up to its bound; a late return brings
/// it back toward the default, and not below.
pub proof fn hold_learns_from_returns(
    n: NodeModel<Fixed>,
    now: Fixed,
    tau_hold: Fixed,
    tau_effective: Fixed,
)
    requires
        0 <= tau_hold.units <= tau_effective.units <= 0x1000_0000_0000_0000,
        0 <= n.hold_hint.units <= tau_effective.units,
        n.stats.t_last.below(n.last_delete),
    ensures
        ({
            let was = hold_of(n.hold_hint, tau_hold, tau_effective).units;
            let is = hold_of(
                learned(n, now, tau_hold, tau_effective).hold_hint,
                tau_hold,
                tau_effective,
            ).units;
            if now.diff(n.last_delete).at_most(long_gap()) {
                was <= is && (2 * is == 3 * was || 2 * is + 1 == 3 * was || is
                    == tau_effective.units)
            } else {
                tau_hold.units <= is <= was
            }
        }),
{
    let hold = n.hold_hint.larger(tau_hold);
    let h = hold.units as int;
    let up = frac::<Fixed>(3, 2);
    let half = frac::<Fixed>(1, 2);
    assert(up.units == 1_500_000_000);
    assert(half.units == 500_000_000);
    assert(h * 1_500_000_000 == (h * 3) * 500_000_000) by (nonlinear_arith);
    assert(((h * 3) * 500_000_000) / 1_000_000_000 == (h * 3) / 2) by (nonlinear_arith);
    let over = hold.diff(tau_hold);
    let d = over.units as int;
    assert(d == h - tau_hold.units);
    assert((d * 500_000_000) / 1_000_000_000 == d / 2) by (nonlinear_arith);
}

impl<R: Real> EngineModel<R> {
    /// The engine after ticks, one after the other.
    pub open spec fn after_ticks(self, ticks: Seq<R>) -> Self
        decreases ticks.len(),
    {
        if ticks.len() == 0 {
            self
        } else {
            self.after_ticks(ticks.drop_last()).ticked(ticks.last()).0
        }
    }
}

impl EngineModel<Fixed> {
    /// A prefix that waits for its return waits through ticks that come before
    /// the lead.
    proof fn ticks_leave_what_waits(self, ticks: Seq<Fixed>, id: int)
        requires
            self.wf(),
            0 <= id < self.trie.nodes.len(),
            self.prices.tau_hold() is Some,
            self.trie.nodes[id].state is Uncached,
            forall|i: int|
                0 <= i < ticks.len() ==> (#[trigger] ticks[i]).units
                    < self.trie.nodes[id].stats.t_last.sum(
                    mean_lull(self.trie.nodes[id].lulls),
                ).diff(self.cfg.extend_lead_hours).units,
        ensures
            ({
                let e = self.after_ticks(ticks);
                let n = e.trie.nodes[id];
                &&& e.wf()
                &&& e.prices == self.prices
                &&& e.cfg == self.cfg
                &&& e.trie.nodes.len() == self.trie.nodes.len()
                &&& n == NodeModel { alive: n.alive, children: n.children, ..self.trie.nodes[id] }
            }),
        decreases ticks.len(),
    {
        if ticks.len() > 0 {
            let rest = ticks.drop_last();
            assert forall|i: int| 0 <= i < rest.len() implies (#[trigger] rest[i]).units
                < self.trie.nodes[id].stats.t_last.sum(mean_lull(self.trie.nodes[id].lulls)).diff(
                self.cfg.extend_lead_hours,
            ).units by {
                assert(rest[i] == ticks[i]);
            }
            self.ticks_leave_what_waits(rest, id);
            let e = self.after_ticks(rest);
            let now = ticks.last();
            assert(now == ticks[ticks.len() - 1]);
            e.tick_node_by_node(now);
            e.tick_names_nodes(now);
            assert(e.tick_fits(now, id));
        }
    }

    /// Without requests a cache stays as it was, but for its expiry, until a tick
    /// ends it; none comes back.
    proof fn ticks_only_end_caches(self, ticks: Seq<Fixed>, id: int)
        requires
            self.wf(),
            0 <= id < self.trie.nodes.len(),
            self.prices.tau_hold() is Some,
        ensures
            ({
                let e = self.after_ticks(ticks);
                let n = e.trie.nodes[id];
                let was = self.trie.nodes[id];
                &&& e.wf()
                &&& e.prices == self.prices
                &&& e.cfg == self.cfg
                &&& e.trie.nodes.len() == self.trie.nodes.len()
                &&& n.state is Cached ==> was.state is Cached && n == NodeModel {
                    alive: n.alive,
                    children: n.children,
                    state: n.state,
                    ..was
                }
            }),
        decreases ticks.len(),
    {
        if ticks.len() > 0 {
            let rest = ticks.drop_last();
            self.ticks_only_end_caches(rest, id);
            let e = self.after_ticks(rest);
            let now = ticks.last();
            e.tick_node_by_node(now);
            e.tick_names_nodes(now);
            assert(e.tick_fits(now, id));
        }
    }

    /// The hold rule is what ticks do: a cache made for a request, without a
    /// learned hold, and ticked once in every `interval`, is stored no longer
    /// than the hold time and one interval after its last hit.
    pub proof fn ticks_keep_the_hold_rule(self, ticks: Seq<Fixed>, interval: int, id: int)
        requires
            self.wf(),
            0 <= id < self.trie.nodes.len(),
            self.prices.tau_hold() is Some,
            self.trie.nodes[id].state is Cached,
            !self.trie.nodes[id].ahead,
            self.trie.nodes[id].hold_hint.units <= self.prices.tau_hold()->0.units,
            ({
                let last = self.trie.nodes[id].stats.t_last.units;
                let tau = self.prices.tau_hold()->0.units;
                &&& i64::MIN <= last + tau <= i64::MAX
                &&& ticks.len() >= 1
                &&& ticks[0].units <= last + tau + interval
                &&& last + tau <= ticks.last().units
            }),
            forall|i: int|
                0 <= i < ticks.len() - 1 ==> ticks[i + 1].units - (#[trigger] ticks[i]).units
                    <= interval,
        ensures
            exists|k: int|
                {
                    &&& 0 <= k < ticks.len()
                    &&& ticks[k].units <= self.trie.nodes[id].stats.t_last.units
                        + self.prices.tau_hold()->0.units + interval
                    &&& !((#[trigger] self.after_ticks(ticks.take(k)).ticked(
                        ticks[k],
                    )).0.trie.nodes[id].state is Cached)
                },
    {
        let n = self.trie.nodes[id];
        let until = self.hold_until(n);
        assert(until.units == n.stats.t_last.units + self.prices.tau_hold()->0.units);
        let k = first_from(ticks, until);
        if k > 0 {
            assert(ticks[k - 1 + 1].units - ticks[k - 1].units <= interval);
        }
        self.ticks_only_end_caches(ticks.take(k), id);
        let e = self.after_ticks(ticks.take(k));
        e.tick_node_by_node(ticks[k]);
        assert(e.tick_fits(ticks[k], id));
        assert(!(e.ticked(ticks[k]).0.trie.nodes[id].state is Cached));
    }

    /// A prefix with regular lulls is cached again before it is due: of ticks
    /// that come at least once in every lead, one that falls within the lead
    /// before the predicted return creates the cache ahead, where the prefix is
    /// long enough, has dwelt since it was given up, and has not been collected.
    #[verifier::rlimit(60)]
    pub proof fn regular_returns_are_met(self, ticks: Seq<Fixed>, id: int)
        requires
            self.wf(),
            0 <= id < self.trie.nodes.len(),
            self.prices.tau_hold() is Some,
            self.trie.nodes[id].state is Uncached,
            regular(self.trie.nodes[id].lulls),
            self.tokens(id) >= self.prices.min_cacheable_tokens,
            self.cfg.extend_lead_hours.units >= 0,
            ({
                let n = self.trie.nodes[id];
                let lead = self.cfg.extend_lead_hours;
                let due = n.stats.t_last.sum(mean_lull(n.lulls));
                &&& due.units - lead.units >= i64::MIN
                &&& n.last_flip.units < due.diff(lead).units
                &&& due.units - n.last_flip.units <= i64::MAX
                &&& self.dwelt(n, due.diff(lead))
                &&& ticks.len() >= 1
                &&& ticks[0].units <= due.diff(lead).units <= ticks.last().units
            }),
            forall|i: int|
                0 <= i < ticks.len() - 1 ==> ticks[i + 1].units - (#[trigger] ticks[i]).units
                    <= self.cfg.extend_lead_hours.units,
            forall|k: int|
                0 <= k < ticks.len() ==> (#[trigger] self.after_ticks(
                    ticks.take(k),
                )).trie.nodes[id].alive,
        ensures
            exists|k: int|
                {
                    &&& 0 <= k < ticks.len()
                    &&& ticks[k].units <= self.trie.nodes[id].stats.t_last.sum(
                        mean_lull(self.trie.nodes[id].lulls),
                    ).units
                    &&& (#[trigger] self.after_ticks(ticks.take(k))).ticked(
                        ticks[k],
                    ).1.contains(
                        Action::PreCreate {
                            node: id as usize,
                            tokens: self.tokens(id),
                            ttl_hours: self.prices.tau_hold()->0,
                        },
                    )
                },
    {
        let n = self.trie.nodes[id];
        let lead = self.cfg.extend_lead_hours;
        let due = n.stats.t_last.sum(mean_lull(n.lulls));
        let k = first_from(ticks, due.diff(lead));
        let few = ticks.take(k);
        self.ticks_leave_what_waits(few, id);
        let e = self.after_ticks(few);
        assert(e.trie.nodes[id].alive);
        if k > 0 {
            assert(ticks[k - 1 + 1].units - ticks[k - 1].units <= lead.units);
        }
        assert(e.warm_step(e.trie.nodes[id], ticks[k]) is Warm);
        e.tick_meets_regular_returns(ticks[k], id);
    }
}

impl<R: Real> EngineModel<R> {
    /// The cached nodes are all that hold a cache, each once, in ascending order.
    pub proof fn cached_nodes_are_all(self, upto: nat)
        requires
            upto <= self.trie.nodes.len() <= usize::MAX,
        ensures
            ({
                let ids = self.cached_below(upto);
                &&& forall|id: NodeId| #[trigger]
                    ids.contains(id) <==> id < upto && self.trie.nodes[id as int].state is Cached
                &&& forall|i: int, j: int|
                    0 <= i < j < ids.len() ==> #[trigger] ids[i] < #[trigger] ids[j]
            }),
        decreases upto,
    {
        if upto > 0 {
            let k = (upto - 1) as nat;
            self.cached_nodes_are_all(k);
            let before = self.cached_below(k);
            let ids = self.cached_below(upto);
            assert forall|id: NodeId| #[trigger] ids.contains(id) <==> id < upto
                && self.trie.nodes[id as int].state is Cached by {
                if ids.contains(id) {
                    let i = choose|i: int| 0 <= i < ids.len() && ids[i] == id;
                    if i < before.len() {
                        assert(before[i] == id);
                        assert(before.contains(id));
                    }
                }
                if id < upto && self.trie.nodes[id as int].state is Cached {
                    if id < k {
                        assert(before.contains(id));
                        let i = choose|i: int| 0 <= i < before.len() && before[i] == id;
                        assert(ids[i] == id);
                    } else {
                        assert(ids[before.len() as int] == id);
                    }
                }
            }
            assert forall|i: int, j: int| 0 <= i < j < ids.len() implies #[trigger] ids[i]
                < #[trigger] ids[j] by {
                assert(ids[i] == before[i]);
                assert(before.contains(before[i]));
                if j < before.len() {
                    assert(ids[j] == before[j]);
                }
            }
        }
    }
}

/// The parameters of an engine unless others are given.
pub proof fn defaults_in_numbers()
    ensures
        ({
            let c = default_config::<Fixed>();
            &&& c.block_tokens == 256
            &&& c.tau_decay_hours.units == 1_000_000_000
            &&& c.theta_up.units == 1_200_000_000
            &&& c.theta_down.units == 800_000_000
            &&& c.min_dwell_hours.units == 83_333_333
            &&& c.create_margin.units == 50_000_000
            &&& c.confidence_samples.units == 5_000_000_000
            &&& c.extend_lead_hours.units == 83_333_333
            &&& c.gc_min_lambda.units == 10_000_000
            &&& c.gc_min_idle_hours.units == 24_000_000_000
            &&& c.max_nodes == 200_000
            &&& !c.enable_micro_batch
            &&& c.micro_batch_defer_hours.units == 555_555
            &&& c.pending_timeout_hours.units == 50_000_000
        }),
{
    assert(Fixed::int_of(1).units == 1_000_000_000 && Fixed::int_of(12).units == 12_000_000_000);
    assert(Fixed::int_of(10).units == 10_000_000_000 && Fixed::int_of(8).units == 8_000_000_000);
    assert(Fixed::int_of(5).units == 5_000_000_000 && Fixed::int_of(60).units == 60_000_000_000);
    assert(Fixed::int_of(100).units == 100_000_000_000);
    assert(Fixed::int_of(24).units == 24_000_000_000);
    assert(Fixed::int_of(2).units == 2_000_000_000);
    assert(Fixed::int_of(3600).units == 3_600_000_000_000);
    assert(Fixed::int_of(3).units == 3_000_000_000);
}

/// The first of times that rise to `at` or beyond which is not before it.
proof fn first_from(ticks: Seq<Fixed>, at: Fixed) -> (k: int)
    requires
        ticks.len() >= 1,
        ticks.last().units >= at.units,
    ensures
        0 <= k < ticks.len(),
        ticks[k].units >= at.units,
        forall|i: int| 0 <= i < k ==> (#[trigger] ticks[i]).units < at.units,
    decreases ticks.len(),
{
    if exists|i: int| 0 <= i < ticks.len() - 1 && (#[trigger] ticks[i]).units >= at.units {
        let i = choose|i: int| 0 <= i < ticks.len() - 1 && (#[trigger] ticks[i]).units >= at.units;
        let few = ticks.take(i + 1);
        let k = first_from(few, at);
        assert forall|j: int| 0 <= j < k implies (#[trigger] ticks[j]).units < at.units by {
            assert(ticks[j] == few[j]);
        }
        k
    } else {
        ticks.len() - 1
    }
}

} // verus!
