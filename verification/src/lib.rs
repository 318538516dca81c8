//! Core of a daily developer journal: one human-editable text file per
//! calendar date, each holding labeled entry blocks. This crate provides the
//! duration normalizer, the entry parser and serializer (a round-tripping
//! pair), the per-date file content transforms (append, update, delete by
//! position), the date-name filter, and the activity aggregator that buckets
//! entries by day, month, project, tag and activity type.
//!
//! Everything here is pure: file and network I/O, clocks and configuration
//! live with the callers. Durations are measured in whole micro-minutes so
//! that every quantity is exact.

pub mod config;
pub mod duration;
pub mod entry;
pub mod parse;
pub mod report;
pub mod roundtrip;
pub mod serialize;
pub mod store;
pub mod tickets;
pub mod text;
