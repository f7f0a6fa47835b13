//! Primitives for Messenger.
pub mod allowlist;
pub mod chain;
pub mod channel;
pub mod inherent;
pub mod traits;
