//! Filesystem change classification and deduplication engine.
//!
//! The engine turns a noisy stream of raw filesystem notifications into a
//! small number of meaningful, de-duplicated, human-readable change events.
//! It is built from three stages: a debouncer that coalesces bursts of raw
//! events per path, a classifier that maps raw events to semantic changes,
//! and a deduplicator that suppresses repeated messages within a sliding
//! time window. Time is carried as milliseconds on a monotonic clock; the
//! caller supplies the clock readings and the filesystem existence probes.

use vstd::prelude::*;

pub mod classify;
pub mod debounce;
pub mod dedup;
pub mod engine;
pub mod events;

verus! {

/// Configuration of the engine: which path suffixes to ignore, how long a
/// message stays suppressed, and how long a path must stay quiet before its
/// pending raw event is flushed downstream.
pub struct Config {
    /// Events whose paths end with one of these suffixes are dropped.
    pub ignore_suffixes: Vec<String>,
    /// Width of the deduplication window, in milliseconds.
    pub dedup_window_ms: u64,
    /// Quiet period before a pending raw event is flushed, in milliseconds.
    pub debounce_interval_ms: u64,
}

impl Config {
    /// The standard configuration: ignore `.DS_Store`, suppress repeated
    /// messages for ten seconds, debounce bursts for two seconds.
    pub fn standard() -> (c: Config)
        ensures
            c.ignore_suffixes@.len() == 1,
            c.ignore_suffixes@[0]@ == ".DS_Store"@,
            c.dedup_window_ms == 10000,
            c.debounce_interval_ms == 2000,
    {
        let mut ignore_suffixes: Vec<String> = Vec::new();
        ignore_suffixes.push(".DS_Store".to_owned());
        Config { ignore_suffixes, dedup_window_ms: 10000, debounce_interval_ms: 2000 }
    }
}

} // verus!
