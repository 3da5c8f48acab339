//! Analysis of the internal dependency structure of a multi-package
//! workspace: a registry of curated package names, a directed dependency
//! graph over them, a deterministic topological orderer, an enumerator of
//! simple cycles, and a textual unused-dependency heuristic.

pub mod errors;
pub mod graph;
pub mod order;
pub mod cycles;
pub mod text;
pub mod registry;
pub mod manifest;
pub mod builder;
pub mod unused;
