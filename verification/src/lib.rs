//! The data-access core of a directory of groups: a schema of typed
//! attributes, a codec for attribute values, a compiler from filters to
//! conditions on tables, and the operations that list, read, create, update
//! and delete groups.

pub mod codec;
pub mod condition;
pub mod filter;
pub mod handler;
pub mod laws;
pub mod merge;
pub mod pattern;
pub mod plan;
pub mod schema;
pub mod seqs;
pub mod sort;
pub mod store;
pub mod tables;
pub mod text;
pub mod types;
