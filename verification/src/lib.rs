//! A minimal single-node key-value server core speaking a Redis-like
//! request/response wire protocol.
//!
//! The crate has three parts: an incremental wire-frame codec that turns a
//! stream of raw bytes into discrete typed messages and back ([`frame`]), a
//! sharded key-value store that backs GET and SET ([`store`]), and the
//! connection-facing buffer and dispatch logic that tie the two together
//! ([`connection`] and [`command`]).

pub mod command;
pub mod connection;
pub mod frame;
pub mod store;
