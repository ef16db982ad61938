//! A workflow execution engine: workflows are directed acyclic graphs of
//! typed nodes; a validated definition is planned into topological levels and
//! executed level by level, passing ordered sequences of items along the
//! connections, with per-node retry and failure policies.

pub mod graph;
pub mod model;
pub mod plan;
pub mod registry;
pub mod engine;
pub mod store;
pub mod trigger;
