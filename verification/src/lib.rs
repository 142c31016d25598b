//! Account and session management core for a small self-hosted music server.
//!
//! The library owns the account store (a persisted mapping from username to
//! account record), password hashing, session tokens, and the session table
//! with its expiry policy. File and network handling live outside; the
//! library works on plain values and byte buffers.

pub mod accounts;
pub mod auth;
pub mod codec;
pub mod config;
pub mod hashing;
pub mod token;
