//! A verified core for a small npm-style package manager.
//!
//! The crate resolves (name, version-range) requests against a registry
//! snapshot, deduplicates compatible versions, plans installations, and
//! serializes the result as a lockfile.  Registry and filesystem access
//! live outside this crate; everything here is pure logic over plain
//! values, verified with Verus.

pub mod cache;
pub mod cli;
pub mod dedup;
pub mod installer;
pub mod json;
pub mod kv;
pub mod lockfile;
pub mod manifest;
pub mod pkg;
pub mod registry;
pub mod resolver;
pub mod util;
pub mod vers;
pub mod workq;
