//! A personal time-tracking journal.
//!
//! The journal is an append-only log of fixed-width records, each one a
//! UTC timestamp and a punch action. The modules below cover the record
//! codec, the byte-level log store with its reverse-offset reads, the
//! state engine that enforces the punch-in/punch-out alternation, and the
//! aggregator that buckets elapsed time by calendar day.

pub mod calendar;
pub mod codec;
pub mod log;
pub mod state;
pub mod aggregate;
pub mod render;
