//! Demand-driven composition of exact rank streams over a finite acyclic network.

pub mod account;
pub mod agreement;
pub mod exhaustive;
pub mod laws;
pub mod leaf_streams;
pub mod plan;
pub mod runtime;
pub mod types;
