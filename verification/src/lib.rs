//! A build/run orchestrator for a compiled, package-oriented language:
//! it orders compilation units by their references, decides which units
//! are stale, fingerprints file lists for artifact naming, plans bounded
//! batches of commands, and prepares the argument material for invoking
//! entry points inside an embedded runtime.

pub mod batch;
pub mod classpath;
pub mod commands;
pub mod config;
pub mod confparse;
pub mod fingerprint;
pub mod graph;
pub mod invoke;
pub mod packages;
pub mod scan;
pub mod stale;
pub mod strutil;
