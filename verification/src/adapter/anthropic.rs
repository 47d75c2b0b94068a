//! Anthropic prompt caching (`cache_control` markers), write-premium regime.
use vstd::prelude::*;

use crate::engine::{Engine, Observation};
use crate::number::Real;
use crate::trie::{CacheState, NodeId, TrieModel};

verus! {

/// A `cache_control` TTL label as the API expects it.
#[derive(Clone, Copy, Debug, PartialEq, Eq, Structural)]
pub enum TtlLabel {
    /// `{"type": "ephemeral"}`: the default 5-minute tier.
    FiveMinutes,
    /// `{"type": "ephemeral", "ttl": "1h"}`.
    OneHour,
}

impl TtlLabel {
    /// The wire value for the `ttl` field (`None` means omit it: the
    /// 5-minute tier is the API default).
    pub fn wire_value(self) -> (r: Option<&'static str>)
        ensures
            match self {
                TtlLabel::FiveMinutes => r is None,
                TtlLabel::OneHour => r is Some && r->0@ == "1h"@,
            },
    {
        match self {
            TtlLabel::FiveMinutes => None,
            TtlLabel::OneHour => Some("1h"),
        }
    }
}

/// Where to place one `cache_control` marker in the outgoing request.
#[derive(Clone, Copy, Debug, PartialEq)]
pub struct Breakpoint {
    /// Place the marker on the content block ending at this token offset
    /// (block-granular: offsets are multiples of the engine's block size).
    pub token_offset: u64,
    /// Which TTL tier to buy at this breakpoint.
    pub ttl: TtlLabel,
}

/// The label of a TTL: the one-hour tier from one hour on.
pub open spec fn label_of<R: Real>(ttl_hours: R) -> TtlLabel {
    if R::int_of(1).at_most(ttl_hours) {
        TtlLabel::OneHour
    } else {
        TtlLabel::FiveMinutes
    }
}

/// The markers at the cached nodes of a path, in order.
pub open spec fn markers<R: Real>(t: TrieModel<R>, path: Seq<NodeId>) -> Seq<Breakpoint>
    decreases path.len(),
{
    if path.len() == 0 {
        Seq::empty()
    } else {
        let before = markers(t, path.drop_last());
        let id = path.last() as int;
        match t.nodes[id].state {
            CacheState::Cached { expires_at_hours, ttl_hours } => before.push(
                Breakpoint { token_offset: t.tokens(id) as u64, ttl: label_of(ttl_hours) },
            ),
            _ => before,
        }
    }
}

/// The first `n` of a sequence, or all where there are fewer.
pub open spec fn at_most_first<T>(s: Seq<T>, n: nat) -> Seq<T> {
    if s.len() <= n {
        s
    } else {
        s.take(n as int)
    }
}

/// Whether markers are those of a request: `at` lists the places of the path
/// that hold a cache, all of them and in order; there is a marker for each, up to
/// the budget, at the length of its prefix, on the one-hour tier where the cache
/// was bought for an hour or more.
pub open spec fn marks<R: Real>(
    t: TrieModel<R>,
    path: Seq<NodeId>,
    budget: nat,
    r: Seq<Breakpoint>,
    at: Seq<int>,
) -> bool {
    &&& forall|i: int, j: int| 0 <= i < j < at.len() ==> #[trigger] at[i] < #[trigger] at[j]
    &&& forall|i: int|
        0 <= i < at.len() ==> 0 <= #[trigger] at[i] < path.len()
            && t.nodes[path[at[i]] as int].state is Cached
    &&& forall|k: int|
        0 <= k < path.len() && t.nodes[#[trigger] path[k] as int].state is Cached ==> at.contains(k)
    &&& r.len() <= budget
    &&& r.len() <= at.len()
    &&& r.len() == budget || r.len() == at.len()
    &&& forall|i: int|
        0 <= i < r.len() ==> {
            let n = t.nodes[path[at[i]] as int];
            &&& (#[trigger] r[i]).token_offset == (n.depth_blocks * t.block_tokens) as u64
            &&& r[i].ttl == if R::int_of(1).at_most(n.state->ttl_hours) {
                TtlLabel::OneHour
            } else {
                TtlLabel::FiveMinutes
            }
        }
}

/// The places of a path that hold a cache, in order.
spec fn cached_places<R: Real>(t: TrieModel<R>, path: Seq<NodeId>) -> Seq<int>
    decreases path.len(),
{
    if path.len() == 0 {
        Seq::empty()
    } else {
        let before = cached_places(t, path.drop_last());
        if t.nodes[path.last() as int].state is Cached {
            before.push(path.len() - 1)
        } else {
            before
        }
    }
}

proof fn places_are_cached<R: Real>(t: TrieModel<R>, path: Seq<NodeId>)
    ensures
        marks(
            t,
            path,
            markers(t, path).len(),
            markers(t, path),
            cached_places(t, path),
        ),
        markers(t, path).len() == cached_places(t, path).len(),
    decreases path.len(),
{
    if path.len() > 0 {
        let rest = path.drop_last();
        places_are_cached(t, rest);
        let few = cached_places(t, rest);
        let at = cached_places(t, path);
        let before = markers(t, rest);
        let all = markers(t, path);
        let last = path.len() - 1;
        assert forall|i: int| 0 <= i < at.len() implies 0 <= #[trigger] at[i] < path.len()
            && t.nodes[path[at[i]] as int].state is Cached by {
            if i < few.len() {
                assert(at[i] == few[i]);
                assert(rest[few[i]] == path[at[i]]);
            }
        }
        assert forall|i: int, j: int| 0 <= i < j < at.len() implies #[trigger] at[i]
            < #[trigger] at[j] by {
            assert(at[i] == few[i]);
            if j < few.len() {
                assert(at[j] == few[j]);
            }
        }
        assert forall|k: int|
            0 <= k < path.len() && t.nodes[#[trigger] path[k] as int].state is Cached implies
            at.contains(k) by {
            if k < last {
                assert(rest[k] == path[k]);
                assert(few.contains(k));
                let i = choose|i: int| 0 <= i < few.len() && few[i] == k;
                assert(at[i] == k);
            } else {
                assert(at[few.len() as int] == k);
            }
        }
        assert forall|i: int| 0 <= i < all.len() implies ({
            let n = t.nodes[path[at[i]] as int];
            &&& (#[trigger] all[i]).token_offset == (n.depth_blocks * t.block_tokens) as u64
            &&& all[i].ttl == if R::int_of(1).at_most(n.state->ttl_hours) {
                TtlLabel::OneHour
            } else {
                TtlLabel::FiveMinutes
            }
        }) by {
            if i < before.len() {
                assert(all[i] == before[i]);
                assert(at[i] == few[i]);
                assert(rest[few[i]] == path[at[i]]);
            }
        }
    }
}

/// The markers are complete: each cache of the path that the budget leaves room
/// for has its own, and nothing else has one.
pub proof fn markers_are_complete<R: Real>(t: TrieModel<R>, path: Seq<NodeId>, budget: nat)
    ensures
        exists|at: Seq<int>|
            marks(t, path, budget, at_most_first(markers(t, path), budget), at),
{
    places_are_cached(t, path);
    let at = cached_places(t, path);
    let all = markers(t, path);
    let r = at_most_first(all, budget);
    assert forall|i: int| 0 <= i < r.len() implies r[i] == all[i] by {}
    assert(marks(t, path, budget, r, at));
}

/// The `cache_control` breakpoints to place on this request, ascending by
/// offset ([`markers_ascend`]), capped at the provider's breakpoint budget.
/// Derived from the committed plan ([`Engine::plan`]) intersected with the
/// request's path.
pub fn breakpoints_for<R: Real>(engine: &Engine<R>, obs: &Observation<R>) -> (r: Vec<Breakpoint>)
    requires
        engine.wf(),
        forall|k: int|
            0 <= k < obs.path@.len() ==> (#[trigger] obs.path@[k]) < engine@.trie.nodes.len(),
    ensures
        r@ == at_most_first(
            markers(engine@.trie, obs.path@),
            engine@.prices.max_breakpoints as nat,
        ),
        exists|at: Seq<int>|
            marks(
                engine@.trie,
                obs.path@,
                engine@.prices.max_breakpoints as nat,
                r@,
                at,
            ),
{
    let trie = engine.trie();
    let budget: usize = engine.prices().max_breakpoints;
    let mut out: Vec<Breakpoint> = Vec::new();
    let mut i: usize = 0;
    assert(obs.path@.take(0) =~= Seq::empty());
    while i < obs.path.len()
        invariant
            i <= obs.path.len(),
            engine.wf(),
            trie@ == engine@.trie,
            budget == engine@.prices.max_breakpoints,
            forall|k: int|
                0 <= k < obs.path@.len() ==> (#[trigger] obs.path@[k]) < engine@.trie.nodes.len(),
            out@ == markers(trie@, obs.path@.take(i as int)),
        decreases obs.path.len() - i,
    {
        let id: NodeId = obs.path[i];
        assert(obs.path@[i as int] < engine@.trie.nodes.len());
        assert(obs.path@.take(i + 1).drop_last() =~= obs.path@.take(i as int));
        if let CacheState::Cached { ttl_hours, .. } = trie.node(id).state {
            assert(trie@.live(id as int));
            let ttl = if R::from_int(1).is_le(ttl_hours) {
                TtlLabel::OneHour
            } else {
                TtlLabel::FiveMinutes
            };
            out.push(Breakpoint { token_offset: trie.tokens(id), ttl });
        }
        i = i + 1;
    }
    assert(obs.path@.take(i as int) =~= obs.path@);
    out.truncate(budget);
    proof {
        markers_are_complete(trie@, obs.path@, budget as nat);
        assert(out@ =~= at_most_first(markers(trie@, obs.path@), budget as nat));
    }
    out
}

/// Markers of a path that leads downward ascend by offset.
pub proof fn markers_ascend<R: Real>(t: TrieModel<R>, path: Seq<NodeId>)
    requires
        t.block_tokens > 0,
        forall|k: int|
            0 <= k < path.len() ==> t.tokens(#[trigger] path[k] as int) <= u64::MAX,
        forall|i: int, j: int|
            0 <= i < j < path.len() ==> t.nodes[#[trigger] path[i] as int].depth_blocks
                < t.nodes[#[trigger] path[j] as int].depth_blocks,
    ensures
        forall|i: int, j: int|
            0 <= i < j < markers(t, path).len() ==> (#[trigger] markers(t, path)[i]).token_offset
                < (#[trigger] markers(t, path)[j]).token_offset,
        forall|i: int|
            0 <= i < markers(t, path).len() ==> (#[trigger] markers(t, path)[i]).token_offset
                <= t.tokens(path.last() as int),
    decreases path.len(),
{
    if path.len() > 0 {
        let rest = path.drop_last();
        let last = path.len() - 1;
        assert forall|k: int| 0 <= k < rest.len() implies t.tokens(#[trigger] rest[k] as int)
            <= u64::MAX by {
            assert(rest[k] == path[k]);
        }
        assert forall|i: int, j: int| 0 <= i < j < rest.len() implies t.nodes[
            #[trigger] rest[i] as int
        ].depth_blocks < t.nodes[#[trigger] rest[j] as int].depth_blocks by {
            assert(rest[i] == path[i] && rest[j] == path[j]);
        }
        markers_ascend(t, rest);
        assert(t.tokens(path[last] as int) <= u64::MAX);
        let before = markers(t, rest);
        let all = markers(t, path);
        if rest.len() > 0 {
            assert(rest.last() == path[last - 1]);
            let a = t.nodes[path[last - 1] as int].depth_blocks;
            let b = t.nodes[path[last] as int].depth_blocks;
            let n = t.block_tokens;
            assert(a < b);
            assert(a * n < b * n) by (nonlinear_arith)
                requires
                    a < b,
                    n > 0,
            ;
        }
        assert forall|i: int, j: int| 0 <= i < j < all.len() implies (
        #[trigger] all[i]).token_offset < (#[trigger] all[j]).token_offset by {
            assert(all[i] == before[i]);
            if j < before.len() {
                assert(all[j] == before[j]);
            }
        }
        assert forall|i: int| 0 <= i < all.len() implies (#[trigger] all[i]).token_offset
            <= t.tokens(path.last() as int) by {
            if i < before.len() {
                assert(all[i] == before[i]);
            }
        }
    }
}

} // verus!
