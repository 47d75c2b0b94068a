//! Cross-provider routing on cache-state-aware marginal cost.
//!
//! When an application is provider-agnostic for a request family, the cheapest
//! venue depends on live cache state, not list prices: a provider with a warm
//! cache for this prefix beats a nominally cheaper cold one. Quotes are
//! read-only ([`crate::Engine::quote_input_cost`]) so unrouted engines' traffic
//! statistics stay clean; only the chosen engine should `observe()` the
//! request.
//!
//! Quotes cover **input-side cost only**; output-token prices (and quality
//! differences) are the application's concern to weigh on top.
use vstd::prelude::*;

use crate::engine::Engine;
use crate::number::Real;

verus! {

/// One provider option for a request. Token counts and block hashes are
/// per-candidate because providers tokenize differently.
pub struct RouteCandidate<'a, R> {
    /// The engine managing this provider's caches.
    pub engine: &'a Engine<R>,
    /// The request's block hashes under this engine's chunking.
    pub blocks: &'a [u64],
    /// The request's total input tokens under this provider's tokenizer.
    pub total_tokens: u64,
}

impl<'a, R: Real> RouteCandidate<'a, R> {
    /// What the request costs here.
    pub open spec fn quote(self, now: R) -> R {
        self.engine@.quoted(self.blocks@, self.total_tokens, now)
    }
}

/// Pick the candidate with the lowest cache-state-aware input cost.
/// Returns `(index, quoted_cost)`; `None` for an empty candidate list.
/// Ties resolve to the earliest candidate (put the preferred provider first).
pub fn cheapest_route<'a, R: Real>(candidates: &[RouteCandidate<'a, R>], now: R) -> (r: Option<
    (usize, R),
>)
    requires
        forall|i: int| 0 <= i < candidates@.len() ==> (#[trigger] candidates@[i]).engine.wf(),
    ensures
        match r {
            None => candidates@.len() == 0,
            Some((i, cost)) => {
                &&& i < candidates@.len()
                &&& cost == candidates@[i as int].quote(now)
                &&& forall|j: int|
                    0 <= j < candidates@.len() ==> cost.rank() <= (#[trigger] candidates@[j]).quote(
                        now,
                    ).rank()
                &&& forall|j: int|
                    0 <= j < i ==> cost.rank() < (#[trigger] candidates@[j]).quote(now).rank()
            },
        },
{
    let mut best: Option<(usize, R)> = None;
    let mut i: usize = 0;
    while i < candidates.len()
        invariant
            i <= candidates@.len(),
            forall|i: int| 0 <= i < candidates@.len() ==> (#[trigger] candidates@[i]).engine.wf(),
            match best {
                None => i == 0,
                Some((k, cost)) => {
                    &&& k < i
                    &&& cost == candidates@[k as int].quote(now)
                    &&& forall|j: int|
                        0 <= j < i ==> cost.rank() <= (#[trigger] candidates@[j]).quote(now).rank()
                    &&& forall|j: int|
                        0 <= j < k ==> cost.rank() < (#[trigger] candidates@[j]).quote(now).rank()
                },
            },
        decreases candidates@.len() - i,
    {
        let c = &candidates[i];
        assert(candidates@[i as int].engine.wf());
        let cost = c.engine.quote_input_cost(c.blocks, c.total_tokens, now);
        let better = match best {
            None => true,
            Some((_, least)) => cost.ranks_before(least),
        };
        if better {
            best = Some((i, cost));
        }
        i = i + 1;
    }
    best
}

} // verus!
