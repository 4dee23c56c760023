//! A tunnel broker library for a three-party file-access relay.
//!
//! A content server behind a firewall keeps a long-lived WebSocket open to the
//! broker; clients reach the broker over HTTP. The broker frames each client
//! request with the client's key, forwards it over the matching server's
//! socket, and correlates the framed replies back to the waiting client until
//! a four-byte NUL sentinel marks the end of one response.
//!
//! This crate holds the broker's logic: the wire framing, the per-session
//! state (outbound queues, reply queues, expiry deadlines), the process-wide
//! registry of sessions, and the request/reply decision rules. Transport
//! (HTTP, WebSocket, timers) lives outside; it hands the library plain bytes
//! and drives it with the clock.

pub mod client_cli;
pub mod codec;
pub mod commands;
pub mod config;
pub mod downloader;
pub mod registry;
pub mod reply;
pub mod server_cli;
pub mod session;
pub mod util;
