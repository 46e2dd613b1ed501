//! Incremental reconciliation of a live-coded signal-chain program with a
//! running graph of stable node handles.
//!
//! `program` models a parsed program; `plan` aligns the node names of each
//! chain and derives the edit plan; `engine` applies a plan to the index of
//! node handles, reports what the audio graph must do, and rebuilds the
//! edges; `laws` states what holds across those steps.
pub mod program;
pub mod plan;
pub mod engine;
pub mod laws;
