//! An in-memory key/value server core: the wire codec, command decoding,
//! the keyspace with expirations and pub/sub, and the per-connection
//! dispatch logic.
pub mod frame;
pub mod parse;
pub mod cmd;
pub mod store;
pub mod session;
pub mod runtime;
pub mod reply;
