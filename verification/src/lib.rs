//! A per-service log-tailing alert engine: it follows an application log,
//! picks out error lines, deduplicates repeated occurrences of the same
//! message in a bounded least-recently-used cache, and decides when a
//! recurring ("flapping") error warrants a notification, debouncing repeats.
//!
//! The crate holds the engine alone: classification and extraction of log
//! lines, the fingerprint cache, the flap detector's sweep, and the parsing
//! of the properties lines that locate the log file. Reading files, watching
//! them for changes, and delivering notifications belong to the program
//! around it, which hands the engine plain lines and timestamps.

pub mod cache;
pub mod config;
pub mod detector;
pub mod laws;
pub mod tailer;
