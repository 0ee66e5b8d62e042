//! Task scheduling core of a multi-index search engine: the task record
//! store with its secondary indices, the batching policy, the scheduler's
//! state machine, the registry of the indexes, and the deterministic
//! textual export of the whole state.
//!
//! Beside the core stand the decisions of the request layer that need no
//! search engine: the pagination of a search, the shape of a filter, the
//! formatting options of the fields, and the codes and messages of the
//! errors.

pub mod bitmap;
pub mod text;
pub mod task;
pub mod table;
pub mod query;
pub mod view;
pub mod store;
pub mod processing;
pub mod autobatcher;
pub mod index_mapper;
pub mod file_store;
pub mod scheduler;
pub mod insta_snapshot;

pub mod json;
pub mod error;
pub mod search;
pub mod similar;
pub mod formatting;
