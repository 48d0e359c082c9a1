//! A read-only query engine over a single database file in the SQLite 3 format.
//!
//! The library decodes pages, cells and records from bytes, walks table and
//! index B-trees, and parses, maps and plans a small `SELECT` dialect.  It never
//! touches a file itself: callers hand it page buffers and get values back.

pub mod cursor;
pub mod enumeration;
pub mod error;
pub mod index_join;
pub mod record_handler;
pub mod records;
pub mod schema;
pub mod sql_handler;
pub mod tokenizer;
pub mod tree_handler;
