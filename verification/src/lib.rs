//! Propylaea: the decisions of an edge proxy that stands between agents and
//! their Hecate server.
//!
//! A request is screened and its credentials are checked in [`gateway`]; what
//! goes on to the server, and what comes back, is made ready in [`forward`] and
//! [`artifact_cache`]; what the server announces arrives through [`sync`].

pub mod allowlist;
pub mod artifact_cache;
pub mod cli;
pub mod client_ip;
pub mod clock;
pub mod config;
pub mod crypto;
pub mod encoding;
pub mod forward;
pub mod gateway;
pub mod headers;
pub mod identity;
pub mod ids;
pub mod ip;
pub mod nonce;
pub mod records;
pub mod signing;
pub mod state;
pub mod sync;
pub mod tables;
pub mod text;
pub mod validate;
pub mod web;
