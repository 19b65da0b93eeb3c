//! An in-memory store of task records.
//!
//! Every task added to a [`TaskStore`] receives a fresh identifier from a
//! counter that starts at one and never goes back, so an identifier is never
//! handed out twice, not even after its task has been deleted. Tasks are
//! listed, whole or page by page, in the order of their identifiers.
//!
//! - [`task`]: the task record.
//! - [`key`]: the text form of an identifier, written and read back.
//! - [`page`]: the arithmetic of pages over a listing.
//! - [`model`]: the store as a mathematical value, and its laws.
//! - [`store`]: the store itself.
//! - [`error`]: how an operation can fail.

pub mod error;
pub mod key;
pub mod model;
pub mod page;
pub mod store;
pub mod task;

pub use crate::error::StoreError;
pub use crate::store::TaskStore;
pub use crate::task::{Task, TaskView};
