# llm_cache

A prefix-cache optimization engine for LLM APIs, verified with Verus: it watches
outgoing requests as block hashes, keeps a decayed prefix trie of the traffic, and
decides which prompt prefixes to cache at the provider, where to place
breakpoints, which TTL tier to buy, and when to create, extend or delete.

The engine is deterministic and clock-free (callers pass `now` in hours), talks to
no provider, and holds no prompt text.

## Layout

- `src/` is the library. Every function in it carries a contract and is proved.
  - `number`, `fixed`: the arithmetic everything is written over. Contracts claim
    nothing of an operation but that its operands determine its result, so they
    hold of arithmetic that rounds; `Fixed` is a decimal instance. `fixed::laws`
    and `fixed::decay` hold what is true of its exponential, `fixed::literal` how
    it is written and read.
  - `chunk`: prompts to block hashes.
  - `stats`, `trie`: the traffic model. `stats::laws`, `trie::laws`,
    `trie::rates` and `trie::shares` hold what is true of every trie.
  - `price`, `plan`: price sheets, the value of a cache point, and the budgeted
    placement under exclusive coverage. `price` proves the hold rule
    2-competitive. `plan::best` proves that no other placement nets more, up to
    rounding and to what a placement counts twice where the estimates put more
    traffic below a prefix than at it; `plan::excess` bounds the latter for
    estimates from observed requests.
  - `engine`: observation intake and the lifecycle controller. `engine::model`
    states each decision, `engine::promises` what callers can rely on.
  - `adapter`, `router`, `shape`: provider calls, cross-provider routing, and
    stable-prefix boundaries.
  - `trace`, `sim`, `cli`: traces, replays of every policy, and the report.
    `sim::oracle` proves the hindsight benchmark optimal, and `sim::benchmark`
    that no fixed rule beats it over a replay.
- `app/` is the `pcoe-sim` program: files, printing, and double-precision numbers.
- `tests/` runs the library on double-precision and on decimal numbers.

## Numbers of one's own

A type that implements `number::Real` can drive the engine; `app/double.rs` does so
for `f64`.
