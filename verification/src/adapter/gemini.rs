//! Gemini explicit caching (`cachedContents.*`), storage-metered regime.
use std::collections::HashMap;
use vstd::prelude::*;

use crate::engine::{Action, Observation};
use crate::fixed::Fixed;
use crate::number::Real;
use crate::trie::NodeId;

verus! {

broadcast use vstd::std_specs::hash::group_hash_axioms;

/// A concrete Gemini API operation for the application to execute.
#[derive(Clone, Debug, PartialEq)]
pub enum GeminiCall {
    /// `cachedContents.create`: build a `CachedContent` from the **first
    /// `prefix_tokens` tokens of the current request** (the application
    /// slices its own content), with the given TTL. On success, call
    /// [`GeminiAdapter::register`] with the returned resource name and
    /// [`crate::Engine::confirm_create`]; on failure,
    /// [`crate::Engine::mark_failed`].
    CreateCachedContent {
        /// Engine node this cache corresponds to.
        node: NodeId,
        /// How many leading tokens of the request to cache.
        prefix_tokens: u64,
        /// Requested TTL, seconds.
        ttl_seconds: u64,
    },
    /// `cachedContents.create` **ahead of a predicted return**: there is no
    /// in-flight request, so the application must build the `CachedContent`
    /// from its **retained stable-prefix content** (the fixed system prompt
    /// / corpus it re-sends every request), not from a request slice. Same
    /// success/failure callbacks as [`GeminiCall::CreateCachedContent`].
    PreCreateCachedContent {
        /// Engine node this cache corresponds to.
        node: NodeId,
        /// How many leading tokens of the stored prefix to cache.
        prefix_tokens: u64,
        /// Requested TTL, seconds.
        ttl_seconds: u64,
    },
    /// `cachedContents.patch`: push the entry's expiry out.
    UpdateExpiry {
        /// Engine node.
        node: NodeId,
        /// Provider resource name (e.g. `cachedContents/abc123`).
        cache_name: String,
        /// New TTL from now, seconds.
        ttl_seconds: u64,
    },
    /// `cachedContents.delete`.
    DeleteCachedContent {
        /// Engine node.
        node: NodeId,
        /// Provider resource name.
        cache_name: String,
    },
}

/// What a call asks for.
pub enum Operation {
    Create { node: NodeId, prefix_tokens: u64, ttl_seconds: u64 },
    PreCreate { node: NodeId, prefix_tokens: u64, ttl_seconds: u64 },
    Update { node: NodeId, cache_name: Seq<char>, ttl_seconds: u64 },
    Delete { node: NodeId, cache_name: Seq<char> },
}

impl GeminiCall {
    pub open spec fn view(&self) -> Operation {
        match *self {
            GeminiCall::CreateCachedContent { node, prefix_tokens, ttl_seconds } =>
                Operation::Create { node, prefix_tokens, ttl_seconds },
            GeminiCall::PreCreateCachedContent { node, prefix_tokens, ttl_seconds } =>
                Operation::PreCreate { node, prefix_tokens, ttl_seconds },
            GeminiCall::UpdateExpiry { node, cache_name, ttl_seconds } => Operation::Update {
                node,
                cache_name: cache_name@,
                ttl_seconds,
            },
            GeminiCall::DeleteCachedContent { node, cache_name } => Operation::Delete {
                node,
                cache_name: cache_name@,
            },
        }
    }
}

/// What calls ask for.
pub open spec fn operations(calls: Seq<GeminiCall>) -> Seq<Operation> {
    calls.map_values(|c: GeminiCall| c@)
}

/// Hours in whole seconds, rounded up.
pub open spec fn seconds_of<R: Real>(hours: R) -> u64 {
    hours.prod(R::int_of(3600)).ceil_of()
}

/// The operation that an action calls for; none where an extension or a
/// deletion is about a node without a resource.
pub open spec fn operation_of<R: Real>(names: Map<NodeId, Seq<char>>, a: Action<R>, now: R)
    -> Option<Operation> {
    match a {
        Action::Create { node, tokens, ttl_hours } => Some(
            Operation::Create {
                node,
                prefix_tokens: tokens,
                ttl_seconds: seconds_of(ttl_hours),
            },
        ),
        Action::PreCreate { node, tokens, ttl_hours } => Some(
            Operation::PreCreate {
                node,
                prefix_tokens: tokens,
                ttl_seconds: seconds_of(ttl_hours),
            },
        ),
        Action::Extend { node, expires_at_hours } => if names.contains_key(node) {
            Some(
                Operation::Update {
                    node,
                    cache_name: names[node],
                    ttl_seconds: seconds_of(expires_at_hours.diff(now)),
                },
            )
        } else {
            None
        },
        Action::Delete { node } => if names.contains_key(node) {
            Some(Operation::Delete { node, cache_name: names[node] })
        } else {
            None
        },
    }
}

/// The registry once an action was translated: a deletion drops the resource.
pub open spec fn names_after<R: Real>(names: Map<NodeId, Seq<char>>, a: Action<R>) -> Map<
    NodeId,
    Seq<char>,
> {
    match a {
        Action::Delete { node } => names.remove(node),
        _ => names,
    }
}

/// The registry and the operations once actions were translated, in order.
pub open spec fn translated<R: Real>(
    names: Map<NodeId, Seq<char>>,
    actions: Seq<Action<R>>,
    now: R,
) -> (Map<NodeId, Seq<char>>, Seq<Operation>)
    decreases actions.len(),
{
    if actions.len() == 0 {
        (names, Seq::empty())
    } else {
        let (m, ops) = translated(names, actions.drop_last(), now);
        let a = actions.last();
        (
            names_after(m, a),
            match operation_of(m, a, now) {
                Some(op) => ops.push(op),
                None => ops,
            },
        )
    }
}

/// Stateful translation layer: engine actions to Gemini calls, plus the
/// node-to-`cachedContents/...` handle registry.
pub struct GeminiAdapter {
    pub(crate) handles: HashMap<NodeId, String>,
}

impl Default for GeminiAdapter {
    fn default() -> (r: Self)
        ensures
            r@ == Map::<NodeId, Seq<char>>::empty(),
    {
        let r = GeminiAdapter { handles: HashMap::new() };
        assert(r@ =~= Map::<NodeId, Seq<char>>::empty());
        r
    }
}

impl GeminiAdapter {
    /// The registry: which provider resource stands for which node.
    pub open(crate) spec fn view(&self) -> Map<NodeId, Seq<char>> {
        self.handles@.map_values(|s: String| s@)
    }

    /// New adapter with an empty handle registry.
    pub fn new() -> (r: Self)
        ensures
            r@ == Map::<NodeId, Seq<char>>::empty(),
    {
        Self::default()
    }

    /// Record the provider resource name returned by a successful create.
    /// Pair with [`crate::Engine::confirm_create`].
    pub fn register(&mut self, node: NodeId, cache_name: String)
        ensures
            final(self)@ == old(self)@.insert(node, cache_name@),
    {
        self.handles.insert(node, cache_name);
        assert(self@ =~= old(self)@.insert(node, cache_name@));
    }

    /// The registered handle for a node, if any.
    pub fn handle(&self, node: NodeId) -> (r: Option<&str>)
        ensures
            match r {
                Some(s) => self@.contains_key(node) && self@[node] == s@,
                None => !self@.contains_key(node),
            },
    {
        match self.handles.get(&node) {
            Some(s) => Some(s.as_str()),
            None => None,
        }
    }

    /// The `cachedContent` resource name this request should reference (from
    /// [`Observation::deepest_cached`]), if its create was registered.
    pub fn reference_for<R: Real>(&self, obs: &Observation<R>) -> (r: Option<&str>)
        ensures
            match r {
                Some(s) => {
                    &&& obs.deepest_cached is Some
                    &&& self@.contains_key(obs.deepest_cached->0)
                    &&& self@[obs.deepest_cached->0] == s@
                },
                None => obs.deepest_cached is None || !self@.contains_key(obs.deepest_cached->0),
            },
    {
        match obs.deepest_cached {
            Some(id) => self.handle(id),
            None => None,
        }
    }

    /// Translates one action.
    fn translate_one<R: Real>(&mut self, a: &Action<R>, now_hours: R) -> (r: Option<GeminiCall>)
        ensures
            final(self)@ == names_after(old(self)@, *a),
            match r {
                Some(c) => operation_of(old(self)@, *a, now_hours) == Some(c@),
                None => operation_of(old(self)@, *a, now_hours) is None,
            },
    {
        let hour = R::from_int(3600);
        match *a {
            Action::Create { node, tokens, ttl_hours } => Some(
                GeminiCall::CreateCachedContent {
                    node,
                    prefix_tokens: tokens,
                    ttl_seconds: ttl_hours.times(hour).ceil_u64(),
                },
            ),
            Action::PreCreate { node, tokens, ttl_hours } => Some(
                GeminiCall::PreCreateCachedContent {
                    node,
                    prefix_tokens: tokens,
                    ttl_seconds: ttl_hours.times(hour).ceil_u64(),
                },
            ),
            Action::Extend { node, expires_at_hours } => match self.handles.get(&node) {
                Some(name) => Some(
                    GeminiCall::UpdateExpiry {
                        node,
                        cache_name: name.clone(),
                        ttl_seconds: expires_at_hours.minus(now_hours).times(hour).ceil_u64(),
                    },
                ),
                None => None,
            },
            Action::Delete { node } => {
                let ghost before = self@;
                let name = self.handles.remove(&node);
                assert(self@ =~= before.remove(node));
                match name {
                    Some(cache_name) => Some(
                        GeminiCall::DeleteCachedContent { node, cache_name },
                    ),
                    None => None,
                }
            },
        }
    }

    /// Translate engine actions into Gemini calls. Extends/deletes whose
    /// node has no registered handle are dropped (fail-open: the engine
    /// state machine already tolerates lost actions).
    pub fn translate<R: Real>(&mut self, actions: &[Action<R>], now_hours: R) -> (calls: Vec<
        GeminiCall,
    >)
        ensures
            (final(self)@, operations(calls@)) == translated(old(self)@, actions@, now_hours),
            exists|at: Seq<int>|
                calls_for(old(self)@, actions@, now_hours, operations(calls@), at),
    {
        let ghost start = self@;
        let mut calls: Vec<GeminiCall> = Vec::new();
        let mut i: usize = 0;
        assert(actions@.take(0) =~= Seq::empty());
        assert(operations(calls@) =~= Seq::empty());
        while i < actions.len()
            invariant
                i <= actions.len(),
                (self@, operations(calls@)) == translated(
                    start,
                    actions@.take(i as int),
                    now_hours,
                ),
            decreases actions.len() - i,
        {
            assert(actions@.take(i + 1).drop_last() =~= actions@.take(i as int));
            let ghost before = operations(calls@);
            if let Some(call) = self.translate_one(&actions[i], now_hours) {
                calls.push(call);
                assert(operations(calls@) =~= before.push(call@));
            }
            i = i + 1;
        }
        assert(actions@.take(i as int) =~= actions@);
        proof {
            translation_is_complete(start, actions@, now_hours);
        }
        calls
    }
}

/// A deletion drops the resource: whatever is translated after it, no operation
/// names the node again until it is registered anew.
pub proof fn deletion_drops_the_name<R: Real>(
    names: Map<NodeId, Seq<char>>,
    actions: Seq<Action<R>>,
    node: NodeId,
    now: R,
)
    requires
        actions.contains(Action::Delete { node }),
    ensures
        !translated(names, actions, now).0.contains_key(node),
    decreases actions.len(),
{
    let rest = actions.drop_last();
    if actions.last() != (Action::<R>::Delete { node }) {
        let gone = Action::<R>::Delete { node };
        let k = choose|k: int| 0 <= k < actions.len() && actions[k] == gone;
        assert(rest[k] == gone);
        deletion_drops_the_name(names, rest, node, now);
    }
}

/// Translation registers nothing: a node without a resource has none
/// afterwards, and its extensions and deletions call for no operation.
pub proof fn unknown_nodes_are_dropped<R: Real>(
    names: Map<NodeId, Seq<char>>,
    actions: Seq<Action<R>>,
    node: NodeId,
    now: R,
    expires_at_hours: R,
)
    requires
        !names.contains_key(node),
    ensures
        !translated(names, actions, now).0.contains_key(node),
        operation_of(
            translated(names, actions, now).0,
            Action::<R>::Extend { node, expires_at_hours },
            now,
        ) is None,
        operation_of(
            translated(names, actions, now).0,
            Action::<R>::Delete { node },
            now,
        ) is None,
    decreases actions.len(),
{
    if actions.len() > 0 {
        unknown_nodes_are_dropped(names, actions.drop_last(), node, now, expires_at_hours);
    }
}

/// Whether the action `k` has an operation: a create always; an extension or a
/// deletion where the node has a resource that no earlier deletion dropped.
pub open spec fn has_call<R: Real>(
    names: Map<NodeId, Seq<char>>,
    actions: Seq<Action<R>>,
    k: int,
) -> bool {
    match actions[k] {
        Action::Create { node, tokens, ttl_hours } => true,
        Action::PreCreate { node, tokens, ttl_hours } => true,
        Action::Extend { node, expires_at_hours } => names.contains_key(node) && !dropped(
            actions.take(k),
            node,
        ),
        Action::Delete { node } => names.contains_key(node) && !dropped(actions.take(k), node),
    }
}

/// Whether some action deletes the cache of `node`.
pub open spec fn dropped<R: Real>(actions: Seq<Action<R>>, node: NodeId) -> bool {
    exists|j: int| 0 <= j < actions.len() && #[trigger] actions[j] == (Action::<R>::Delete { node })
}

/// Whether an operation is what an action asks for: for the same node, at the
/// same length, for at least as many seconds as the hours that are asked for, on
/// the resource of the node.
pub open spec fn carries_out<R: Real>(
    names: Map<NodeId, Seq<char>>,
    a: Action<R>,
    now: R,
    op: Operation,
) -> bool {
    match a {
        Action::Create { node, tokens, ttl_hours } => op == Operation::Create {
            node,
            prefix_tokens: tokens,
            ttl_seconds: ttl_hours.prod(R::int_of(3600)).ceil_of(),
        },
        Action::PreCreate { node, tokens, ttl_hours } => op == Operation::PreCreate {
            node,
            prefix_tokens: tokens,
            ttl_seconds: ttl_hours.prod(R::int_of(3600)).ceil_of(),
        },
        Action::Extend { node, expires_at_hours } => op == Operation::Update {
            node,
            cache_name: names[node],
            ttl_seconds: expires_at_hours.diff(now).prod(R::int_of(3600)).ceil_of(),
        },
        Action::Delete { node } => op == Operation::Delete { node, cache_name: names[node] },
    }
}

/// Whether operations are those of actions: `at` lists the actions that have one,
/// all of them and in order, and there is the operation of each.
pub open spec fn calls_for<R: Real>(
    names: Map<NodeId, Seq<char>>,
    actions: Seq<Action<R>>,
    now: R,
    ops: Seq<Operation>,
    at: Seq<int>,
) -> bool {
    &&& ops.len() == at.len()
    &&& forall|i: int, j: int| 0 <= i < j < at.len() ==> #[trigger] at[i] < #[trigger] at[j]
    &&& forall|i: int|
        0 <= i < at.len() ==> {
            &&& 0 <= #[trigger] at[i] < actions.len()
            &&& has_call(names, actions, at[i])
            &&& carries_out(names, actions[at[i]], now, ops[i])
        }
    &&& forall|k: int|
        #![trigger actions[k]]
        0 <= k < actions.len() && has_call(names, actions, k) ==> at.contains(k)
}

/// Translation is complete: each action that has an operation gets its own, in
/// order, and nothing else is called. Afterwards the registry holds the resources
/// that it held, without those deleted.
#[verifier::rlimit(60)]
pub proof fn translation_is_complete<R: Real>(
    names: Map<NodeId, Seq<char>>,
    actions: Seq<Action<R>>,
    now: R,
)
    ensures
        exists|at: Seq<int>| calls_for(names, actions, now, translated(names, actions, now).1, at),
        forall|node: NodeId| #[trigger]
            translated(names, actions, now).0.contains_key(node) <==> names.contains_key(node)
                && !dropped(actions, node),
        forall|node: NodeId| #[trigger]
            translated(names, actions, now).0.contains_key(node) ==> translated(
                names,
                actions,
                now,
            ).0[node] == names[node],
    decreases actions.len(),
{
    if actions.len() == 0 {
        let at = Seq::<int>::empty();
        assert(calls_for(names, actions, now, translated(names, actions, now).1, at));
    } else {
        let rest = actions.drop_last();
        let last = actions.len() - 1;
        translation_is_complete(names, rest, now);
        let (m, few) = translated(names, rest, now);
        let (left, ops) = translated(names, actions, now);
        let at0 = choose|at: Seq<int>| calls_for(names, rest, now, few, at);
        let a = actions[last];
        assert(a == actions.last());
        assert(actions.take(last) =~= rest);
        assert forall|k: int| 0 <= k < last implies has_call(names, rest, k) == has_call(
            names,
            actions,
            k,
        ) && rest[k] == #[trigger] actions[k] by {
            assert(rest.take(k) =~= actions.take(k));
        }
        let at = if has_call(names, actions, last) {
            at0.push(last)
        } else {
            at0
        };
        assert forall|node: NodeId| dropped(actions, node) == (dropped(rest, node) || a
            == (Action::<R>::Delete { node })) by {
            if dropped(rest, node) {
                let j = choose|j: int|
                    0 <= j < rest.len() && #[trigger] rest[j] == (Action::<R>::Delete { node });
                assert(actions[j] == rest[j]);
            }
            if dropped(actions, node) && a != (Action::<R>::Delete { node }) {
                let j = choose|j: int|
                    0 <= j < actions.len() && #[trigger] actions[j] == (Action::<R>::Delete {
                        node,
                    });
                assert(rest[j] == actions[j]);
            }
        }
        assert(operation_of(m, a, now) is Some == has_call(names, actions, last));
        assert(calls_for(names, actions, now, ops, at)) by {
            assert forall|i: int| 0 <= i < at.len() implies {
                &&& 0 <= #[trigger] at[i] < actions.len()
                &&& has_call(names, actions, at[i])
                &&& carries_out(names, actions[at[i]], now, ops[i])
            } by {
                if i < at0.len() {
                    assert(at[i] == at0[i]);
                    assert(ops[i] == few[i]);
                    assert(rest[at0[i]] == actions[at0[i]]);
                }
            }
            assert forall|i: int, j: int| 0 <= i < j < at.len() implies #[trigger] at[i]
                < #[trigger] at[j] by {
                assert(at[i] == at0[i]);
                if j < at0.len() {
                    assert(at[j] == at0[j]);
                }
            }
            assert forall|k: int|
                #![trigger actions[k]]
                0 <= k < actions.len() && has_call(names, actions, k) implies at.contains(k) by {
                if k < last {
                    assert(rest[k] == actions[k]);
                    assert(at0.contains(k));
                    let i = choose|i: int| 0 <= i < at0.len() && at0[i] == k;
                    assert(at[i] == k);
                } else {
                    assert(at[at0.len() as int] == k);
                }
            }
        }
    }
}

/// A lifetime in seconds covers the hours asked for, and no more than a second
/// beyond; a time that is over is none.
pub proof fn seconds_cover_hours(hours: Fixed)
    requires
        hours.units <= 2_000_000_000_000_000,
    ensures
        ({
            let s = seconds_of(hours);
            &&& hours.units <= 0 ==> s == 0
            &&& hours.units > 0 ==> s * 1_000_000_000 >= hours.units * 3600 > (s - 1)
                * 1_000_000_000
        }),
{
    let h = hours.units as int;
    let k = Fixed::int_of(3600);
    assert(k.units == 3_600_000_000_000);
    assert(h * 3_600_000_000_000 == (h * 3600) * 1_000_000_000) by (nonlinear_arith);
    assert(((h * 3600) * 1_000_000_000) / 1_000_000_000 == h * 3600);
    let x = h * 3600;
    if h > 0 {
        let c = (x + 1_000_000_000 - 1) / 1_000_000_000;
        assert(c * 1_000_000_000 >= x && (c - 1) * 1_000_000_000 < x);
    }
}

} // verus!
