//! A key-value store: a byte trie, its on-disk record format, a write-ahead
//! log with two rotating slots, the wire framing of requests and responses,
//! and the single dispatcher that serialises every read and write.

pub mod record;
pub mod trie;
pub mod event;
pub mod protocol;
pub mod config;
pub mod command;
