//! A per-owner record store: each owner keeps short text records with a
//! completion flag, addressed by identifiers drawn from one counter that is
//! shared by all owners and never hands out the same value twice.

pub mod laws;
pub mod model;
pub mod store;

pub use model::{Action, RecordView, StoreView};
pub use store::{TodoError, TodoItem, TodoList};
