//! # Prefix-cache optimization engine
//!
//! An online, cost-model-driven controller for *provider-side explicit prompt
//! caches* (Gemini `CachedContent`, Anthropic `cache_control`). It watches the
//! stream of outgoing LLM requests, maintains a privacy-safe statistical model
//! of prefix reuse (a decayed prefix trie over hashed token blocks; no prompt
//! text is retained), and emits cache-management actions: what to cache, where
//! to place breakpoints, which TTL tier to buy, and when to create, extend, or
//! delete.
//!
//! ## Time and numbers
//!
//! All APIs take `now` in **hours** on any monotonic clock of the caller's
//! choosing (e.g. hours since process start). This keeps the core deterministic
//! and testable; nothing in the crate reads the system clock. Times, rates and
//! prices are values of a type that implements [`number::Real`]:
//! [`fixed::Fixed`] comes with the library, and a caller may bring another.
//!
//! ## Where things are
//!
//! - [`chunk`]: prompts to block hashes.
//! - [`trie`], [`stats`]: the traffic model.
//! - [`price`]: what providers charge.
//! - [`plan`]: which prefixes are worth a cache point.
//! - [`engine`]: when to create, extend and delete; [`engine::model`] states
//!   its decisions, [`engine::promises`] what follows from them.
//! - [`adapter`], [`router`], [`shape`]: what an application does with it.
//! - [`trace`], [`sim`], [`cli`]: what it would have saved.
pub mod adapter;
pub mod chunk;
pub mod cli;
pub mod engine;
pub mod fixed;
mod idset;
pub mod number;
pub mod order;
pub mod plan;
pub mod price;
pub mod router;
pub mod shape;
pub mod sim;
pub mod stats;
pub mod text;
pub mod total;
pub mod trace;
pub mod trie;

pub use engine::{Action, Config, Engine, Observation};
pub use plan::Placement;
pub use price::{PriceSheet, Regime, TtlTier};
pub use trie::{CacheState, NodeId, PrefixTrie};
