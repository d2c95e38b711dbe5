//! Incremental file distribution: a staleness cache, source resolution,
//! a copy engine that skips byte-identical destinations, and the planning
//! that ties them together.
//!
//! Paths are handled as text under Unix conventions: `/` separates
//! components and a path that starts with `/` is absolute.

pub mod distributor;
pub mod distributor_cache_db;
pub mod distributor_config;
pub mod paths;
