//! A verified read-only query engine over the SQLite on-disk file format.
//!
//! The library decodes database pages, cells and records from an in-memory
//! byte image of a database file, traverses table and index B-trees, and
//! answers a restricted class of `SELECT` statements.  All file access is
//! left to the caller: the engine works on a `Vec<u8>` holding the file.

pub mod btree;
pub mod btree_header;
pub mod cells;
pub mod column;
pub mod db_header;
pub mod engine;
pub mod error;
pub mod filter;
pub mod floats;
pub mod laws;
pub mod lexer;
pub mod page;
pub mod pager;
pub mod parser;
pub mod record;
pub mod schema;
pub mod schema_object;
pub mod serial_type;
pub mod serial_value;
pub mod serialisation;
pub mod set;
pub mod text;
pub mod varint;
