//! A verified core for a line-delimited broadcast chat server.
//!
//! The library holds the logic of a readiness-based reactor: framing a byte
//! stream into newline-terminated lines, per-connection read/write buffering,
//! a token-indexed connection table, the fixed-point tick that fans parsed
//! lines out to every live connection, and a key/value application model with
//! a back-pressured reply path. The sockets themselves, the poll loop and the
//! process glue live outside the library and drive it with plain values.

pub mod conn;
pub mod framer;
pub mod model;
pub mod reactor;
pub mod table;
