//! A verified core for a small RESP (Redis serialization protocol) server:
//! protocol values, the wire codec, and the command dispatcher over an
//! in-memory store.

pub mod laws;
pub mod numtext;
pub mod parser;
pub mod strutil;
pub mod valkey;
