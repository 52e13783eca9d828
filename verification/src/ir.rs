//! The graph data model and its validator.

pub mod acyclic;
pub mod cycles;
pub mod errors;
pub mod graph;
pub mod ops;
pub mod types;
pub mod validation;
