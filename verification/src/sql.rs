//! Plans, and their execution against a store.

pub mod engine;
pub mod execution;
pub mod planner;
