//! A Redis-compatible in-memory key/value core: a RESP2 wire codec, a
//! single-writer / many-reader store with TTL expiration, and the
//! per-connection dispatch rules, all with machine-checked contracts.

pub mod codecs;
pub mod protocol;
pub mod server;
pub mod storage;
pub mod utils;
