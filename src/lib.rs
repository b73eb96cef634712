//! Planning and reconciliation engine for declarative container workloads.
//!
//! The library turns an abstract document into a graph of steps, schedules
//! those steps, decides for each resource whether to adopt, replace or create
//! it, and keeps the compensating actions that undo a failed run.
pub mod labels;
pub mod model;
pub mod plan;
pub mod executor;
pub mod prepare;
pub mod fingerprint;
pub mod secrets;
pub mod containers;
pub mod reconcile;
