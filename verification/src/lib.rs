//! A small single-file-per-table SQL database engine: a tokenizer and
//! recursive-descent parser for a tiny SQL dialect, fixed-size row and schema
//! encodings, an in-memory B-tree, page caches, CRC32 page checksums and the
//! decision logic behind file locking and paged table storage.

pub mod btree;
pub mod execution;
pub mod byteutil;
pub mod text;
pub mod tokenizer;
pub mod parser;
pub mod row;
pub mod schema;
pub mod storage;
