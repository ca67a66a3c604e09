//! Core of a shell-command statistics tracker.
//!
//! A background daemon receives begin/end notifications for shell commands
//! over a Unix-domain socket, keeps a ledger of in-flight commands and
//! running per-command aggregates, serves statistics queries as JSON, and
//! persists the aggregates to disk. This crate holds the verified logic:
//! the wire-protocol codec, the statistics ledger, the request dispatcher,
//! and the persistence codec. The surrounding process (socket handling,
//! signals, files) lives outside the library and hands it plain values.

pub mod config;
pub mod daemon;
pub mod digits;
pub mod dto;
pub mod handlers;
pub mod model;
pub mod protocol;
pub mod socket;
pub mod strmap;
pub mod text;
pub mod utils;
