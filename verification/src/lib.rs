//! Execution core of a small relational database.
//!
//! A planned query tree is lowered into a row stream, and row-level mutations
//! are applied to a transactional store. Every item of this crate is verified
//! but two small calls into the iterator adaptors of an outside crate, whose
//! contracts are stated where they stand and believed.

pub mod common;
pub mod types;
pub mod storage;
pub mod sql;
