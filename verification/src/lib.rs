//! Salsa: a deterministic text-expansion engine.
//!
//! The library holds the snippet data model, the trigger matcher, the
//! snippet linter, the storage row mapping and the IPC message framing,
//! each with a machine-checked contract.

pub mod clock;
pub mod engine;
pub mod ids;
pub mod ipc;
pub mod lint;
pub mod model;
pub mod platform;
pub mod store;
pub mod text;
mod trie;
