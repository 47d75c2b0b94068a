//! Request shaping: prefix-stability boundary detection.
//!
//! The trie itself is the volatility detector: a node with high fan-out (many
//! rarely-repeated children) marks the point where a request family's stable
//! shared content ends and per-request volatile content begins. The boundary is
//! where a cache point belongs, and everything the application can reorder
//! (timestamps, user IDs, per-request footers) should render *after* it. The
//! engine cannot see content, so it reports the boundary and its value; the
//! application decides what to move.
use vstd::prelude::*;

use crate::number::Real;
use crate::plan::{cost_rate, savings_rate};
use crate::price::{PriceSheet, Prices};
use crate::trie::{NodeId, PrefixTrie, TrieModel};

verus! {

broadcast use vstd::std_specs::hash::group_hash_axioms;

/// A detected stable-to-volatile boundary on a request path.
#[derive(Clone, Copy, Debug)]
pub struct ShapeHint<R> {
    /// Deepest node on the path where the traffic fans out: the last block of
    /// stable shared content.
    pub boundary_node: NodeId,
    /// Stable prefix length in tokens. Content after this offset varies per
    /// request; keep volatile fields after it (or move them there).
    pub stable_tokens: u64,
    /// Number of distinct continuations observed after the boundary.
    pub fanout: usize,
    /// Net savings rate ($/hour) a cache point at the boundary would earn at
    /// current traffic: the value of keeping (or making) this prefix stable.
    pub net_savings_per_hour: R,
}

/// How many distinct continuations follow a node.
pub open spec fn fanout_of<R: Real>(t: TrieModel<R>, id: NodeId) -> nat {
    t.nodes[id as int].children.dom().len()
}

/// What a boundary at `id` is worth.
pub open spec fn boundary_at<R: Real>(
    t: TrieModel<R>,
    prices: Prices<R>,
    id: NodeId,
    now: R,
) -> ShapeHint<R> {
    let n = t.nodes[id as int];
    let tokens = t.tokens(id as int) as u64;
    ShapeHint {
        boundary_node: id,
        stable_tokens: tokens,
        fanout: fanout_of(t, id) as usize,
        net_savings_per_hour: prices.savings_rate(
            tokens,
            n.stats.decayed_lambda(now, t.tau_decay),
        ).diff(prices.cost_rate(tokens, n.stats, now, t.tau_decay).0),
    }
}

/// Find the stable-to-volatile boundary on `path`: the deepest node whose
/// fan-out is at least `min_fanout`. Returns `None` when the path never fans
/// out (a unique or single-family request; nothing to shape yet).
///
/// `min_fanout` trades sensitivity for confidence; 3 is a reasonable default
/// (two distinct continuations can just be an A/B pair, three start looking
/// like a pattern).
pub fn stable_boundary<R: Real>(
    trie: &PrefixTrie<R>,
    prices: &PriceSheet<R>,
    path: &[NodeId],
    now: R,
    min_fanout: usize,
) -> (r: Option<ShapeHint<R>>)
    requires
        forall|k: int|
            0 <= k < path@.len() ==> (#[trigger] path@[k]) < trie@.nodes.len() && (fanout_of(
                trie@,
                path@[k],
            ) >= min_fanout ==> trie@.tokens(path@[k] as int) <= u64::MAX),
    ensures
        match r {
            Some(hint) => exists|k: int|
                {
                    &&& 0 <= k < path@.len()
                    &&& hint == boundary_at(trie@, prices@, #[trigger] path@[k], now)
                    &&& fanout_of(trie@, path@[k]) >= min_fanout
                    &&& fanout_of(trie@, path@[k]) == hint.fanout
                    &&& forall|j: int|
                        k < j < path@.len() ==> fanout_of(trie@, #[trigger] path@[j]) < min_fanout
                },
            None => forall|j: int|
                0 <= j < path@.len() ==> fanout_of(trie@, #[trigger] path@[j]) < min_fanout,
        },
{
    let mut i: usize = path.len();
    while i > 0
        invariant
            i <= path.len(),
            forall|k: int|
                0 <= k < path@.len() ==> (#[trigger] path@[k]) < trie@.nodes.len() && (fanout_of(
                    trie@,
                    path@[k],
                ) >= min_fanout ==> trie@.tokens(path@[k] as int) <= u64::MAX),
            forall|j: int|
                i <= j < path@.len() ==> fanout_of(trie@, #[trigger] path@[j]) < min_fanout,
        decreases i,
    {
        let id: NodeId = path[i - 1];
        assert(path@[i - 1] < trie@.nodes.len());
        let node = trie.node(id);
        let fanout: usize = node.children.len();
        if fanout >= min_fanout {
            let tokens: u64 = trie.tokens(id);
            let lambda = node.stats.decayed_lambda(now, trie.tau_decay);
            let s = savings_rate(prices, tokens, lambda);
            let (c, _) = cost_rate(prices, tokens, &node.stats, now, trie.tau_decay);
            let hint = ShapeHint {
                boundary_node: id,
                stable_tokens: tokens,
                fanout,
                net_savings_per_hour: s.minus(c),
            };
            assert(hint == boundary_at(trie@, prices@, path@[i - 1], now));
            return Some(hint);
        }
        i = i - 1;
    }
    None
}

/// A boundary is told as it is: at its node and length, with as many
/// continuations as blocks lead on from it, and worth what all its traffic would
/// save by reading it from a cache, less what holding it costs.
pub proof fn boundary_is_told_as_it_is<R: Real>(
    t: TrieModel<R>,
    prices: Prices<R>,
    id: NodeId,
    now: R,
)
    ensures
        ({
            let hint = boundary_at(t, prices, id, now);
            let n = t.nodes[id as int];
            let tokens = (n.depth_blocks * t.block_tokens) as u64;
            let rate = n.stats.decayed_lambda(now, t.tau_decay);
            &&& hint.boundary_node == id
            &&& hint.stable_tokens == tokens
            &&& hint.fanout == n.children.dom().len() as usize
            &&& hint.net_savings_per_hour == prices.savings_rate(tokens, rate).diff(
                prices.cost_rate(tokens, n.stats, now, t.tau_decay).0,
            )
            &&& fanout_of(t, id) == n.children.dom().len()
        }),
{
}

} // verus!
