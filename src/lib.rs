//! A persistent key-value store built on extendible hashing, with an
//! in-memory write-ahead log for interactive transactions.
//!
//! The library is verified: the byte layouts of records, pages and the
//! two files, the hash engine with its local and global splits, the
//! transaction log, the routing of commands and the command language.
//! Its trusted items are a handful of wrappers around std, `twox-hash` and
//! `uuid`, each stating what it relies on. Reading and writing files, the
//! console and the network stay with the caller.

pub mod slots;
pub mod record;
pub mod bucket;
pub mod bytes;
pub mod text;
pub mod command;
pub mod directory;
pub mod hash_storage;
pub mod wal;
pub mod parse;
pub mod execute;
pub mod laws;
