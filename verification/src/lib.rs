//! Ledger-accounting and state-export core of a consensus engine.
//!
//! The crate provides a slot-indexed ledger of deferred stake payouts whose
//! digest is maintained incrementally and is independent of the order in
//! which final mutations were applied, a canonical binary codec for that
//! ledger, a cursor-driven bootstrap exporter for finalized blocks, and a
//! facade that pairs a fire-and-forget command channel with a shared,
//! concurrently readable state.
pub mod types;
pub mod encoding;
pub mod hashing;
pub mod credits;
pub mod codec;
pub mod bootstrap;
