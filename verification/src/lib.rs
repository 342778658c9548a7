//! A small metrics store: time-stamped samples, each identified by a metric name
//! and a series key, laid out in one ordered key-value store.
//!
//! The crate holds the key codec and the engine's rules; the store itself is
//! driven by the caller.

pub mod bootstrap;
pub mod codec;
pub mod decimal;
pub mod engine;
pub mod laws;
pub mod layout;
pub mod store;
pub mod value_text;
