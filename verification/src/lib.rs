//! A verified core for a local file-agent service: token authentication,
//! a uniform response envelope, a modelled filesystem with the agent's
//! operations (read, write, delete, create, move, copy), bounded search and
//! shallow listing, and the text-safe binary codec used by the binary
//! endpoints.

pub mod auth;
pub mod codec;
pub mod config;
pub mod envelope;
pub mod fsmodel;
pub mod handlers;
pub mod paths;
pub mod text;
