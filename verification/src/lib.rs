//! A local-first memory store for agents.
//!
//! Memories, streams, sessions and key/value pairs are recorded in a
//! write-ahead log and in append-only chunk files. This crate holds everything
//! that such a store decides: how the log is framed and replayed, where blocks
//! are placed, what the in-memory index holds, how streams are read back and
//! what is handed to the full-text index. It reads and writes no file itself.
pub mod blocks;
pub mod bytes;
pub mod chunk_name;
pub mod codec;
pub mod engine;
pub mod error;
pub mod fs;
pub mod laws;
pub mod search;
pub mod session;
pub mod storage;
pub mod stream;
pub mod text;
pub mod watch;

pub use crate::fs::MemMapFS;
pub use crate::session::Session;
pub use crate::stream::StreamReader;
