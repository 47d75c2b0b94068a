//! Provider adapters: translate engine actions and observations into concrete
//! provider API operations.
//!
//! The adapters are deliberately **wire-agnostic**: the engine never retains
//! prompt content (privacy invariant), so it cannot build API payloads itself.
//! Instead each adapter tells the application, which still holds the request
//! content, exactly *what* call to make with *which slice* of its own data.
//! Executing the HTTP call, and reporting back via
//! [`crate::Engine::confirm_create`] / [`crate::Engine::mark_failed`], stays
//! with the application.
pub mod anthropic;
pub mod gemini;
