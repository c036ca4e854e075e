//! The physical operators and the executor that composes them.

pub mod aggregate;
pub mod execute;
pub mod join;
pub mod source;
pub mod transform;
pub mod write;
