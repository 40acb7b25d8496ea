//! Session and key/value-cache management for autoregressive inference.
//!
//! The crate tracks, per conversation, which token positions already have
//! entries in a physical cache buffer. A gapped interval tracker records the
//! cached positions, a conversation cache combines it with the token history
//! and an absolute offset, a session context derives each step's query, and a
//! worker serializes inference and teardown commands for one device.

pub mod cache;
pub mod ranges;
pub mod session;
pub mod worker;
