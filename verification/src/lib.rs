//! A bitcask-style persistent key/value store core.
//!
//! Keys and values are strings. Every write appends a serialized command
//! record to an append-only log; an in-memory index maps each key to the
//! offset of the most recent `Set` record for that key. Reads follow the
//! index into the log. When enough obsolete records accumulate, the log is
//! compacted: a fresh log is rewritten from the live index entries.
//!
//! The engine works on the log's character content. The surrounding
//! application owns the log file: it reads the file into a string before
//! `KvStore::open` and persists `KvStore::log_contents` after each write.

pub mod chars;
pub mod codec;
pub mod command;
pub mod errors;
pub mod log;
pub mod store;

pub use command::Command;
pub use errors::Error;
pub use log::Log;
pub use log::LogPointer;
pub use log::LogReplay;
pub use store::KvStore;
