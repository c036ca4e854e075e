//! Row identities, rows and row streams.

pub mod page;
pub mod tuple;
