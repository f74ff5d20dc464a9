//! Lifecycle management for reverse-proxy configuration fragments.
//!
//! A set of domains is turned into a stable identifier, which names a backend
//! descriptor and a frontend routing file. The library renders both files,
//! decides which filesystem actions install and remove them, and decides when
//! a running instance shuts down. The actual reading of the environment,
//! file writes and signal handling are left to the caller.

pub mod uid;
pub mod config;
pub mod domains;
pub mod shutdown;
