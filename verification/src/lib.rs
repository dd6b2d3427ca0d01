//! Message framing and connection management for simple TCP applications.
//!
//! The wire protocol sends each message as one frame: an 8-byte little-endian
//! length prefix followed by exactly that many payload bytes. This crate
//! verifies the framing codec, the non-blocking poll classification that
//! distinguishes a pending frame from an idle, cleanly closed, or abruptly
//! closed peer, and the engine's connection roster: admission order,
//! lifecycle transitions, and eviction of terminated connections.

pub mod pk;
pub mod server;
