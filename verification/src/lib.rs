//! Medulla: a cognitive memory layer for local agents.
//!
//! The library holds the logic of the `med` tool: how memories are normalised when
//! they are learned, how local musings and the shared `brain.ndjson` are merged into a
//! canonical set, how that set is exported, how Hebbian co-activations are counted, and
//! how a query selects, ranks and reinforces memories. File access, locking, Parquet
//! storage, floating-point scoring and the embedding model live in the application.
pub mod bindings;
pub mod commands;
pub mod memory;
pub mod rank;
pub mod text;
