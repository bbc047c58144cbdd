//! A read-only viewer library for DHCP lease stores: it locates lease files
//! (plain path, directory, or trailing-`*` prefix pattern), parses their
//! comma-separated records into `Lease` values with per-field validation,
//! and deduplicates and sorts the result for display.
pub mod config;
pub mod lease;
pub mod numbers;
pub mod server;
pub mod text;
