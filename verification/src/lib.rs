//! Intermediate representation of a tensor computation: a graph of typed
//! operations, the passes that validate it, and the compiler configuration
//! that is validated alongside it.

pub mod config;
pub mod ir;
pub mod text;
