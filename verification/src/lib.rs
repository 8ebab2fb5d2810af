//! A small task tracker: a store of short textual tasks, each with a
//! lifecycle state, kept under unique string identifiers, together with
//! the textual format in which a store is persisted.

pub mod chars;
pub mod codec;
pub mod database;
pub mod dec;
pub mod task;

pub use database::Database;
pub use task::Task;
pub use task::TaskState;
