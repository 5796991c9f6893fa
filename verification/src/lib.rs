//! Verified core of the game information service: request parsing, the
//! per-user visit bookkeeping, the GeoIP and version caches, and the access
//! statistics.

pub mod access;
pub mod cache;
pub mod config;
pub mod decimal;
pub mod handlers;
pub mod json;
pub mod shared;
pub mod stats;
pub mod text;
pub mod utils;
