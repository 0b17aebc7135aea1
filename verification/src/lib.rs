//! A step debugger core for recorded EVM test executions.
//!
//! The library turns a hierarchical call-trace recording into a linear,
//! randomly addressable timeline of debug nodes, resolves the compact
//! inheritance-encoded source-map format into per-instruction source
//! records, and drives a bidirectional navigation cursor over the
//! flattened timeline.

pub mod engine;
pub mod flatten;
pub mod opcodes;
pub mod source_map;
pub mod types;
