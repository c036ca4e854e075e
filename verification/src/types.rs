//! Values and schemas.

pub mod field;
pub mod schema;
pub mod total_order;
