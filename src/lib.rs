//! An in-memory store of todo items with fuzzy (subsequence) search over
//! description words and tags.

pub mod fuzzy;
pub mod query;
pub mod todo_list;
