//! An in-memory key-value server core speaking the RESP wire format.
//!
//! The crate holds the verified heart of the system: the RESP frame
//! codec, the argument parser that walks a request array, the command
//! layer, and the store with its TTL bookkeeping.  Socket handling and
//! task plumbing live outside, built on top of these functions.
pub mod client;
pub mod cmd;
pub mod connection;
pub mod db;
pub mod frame;
pub mod parser;
pub mod server;

pub use cmd::{Command, Get, Ping, SetCmd};
pub use db::Database;
pub use frame::Frame;
