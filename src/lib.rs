//! A W-TinyLFU cache core: a frequency sketch guarding admission, a
//! weight-bounded key table with sampled-LFU eviction, a key/value store
//! with per-entry expiry, and a per-second TTL ticker, all driven by a
//! single writer that applies commands one at a time.
//!
//! Concurrency, clocks and I/O are left to the caller: every operation here
//! takes `&mut self` and, where time matters, the current time in
//! milliseconds.
pub mod types;
pub mod stored_value;
pub mod frequency;
pub mod table;
pub mod policy;
pub mod store;
pub mod expiration;
pub mod key_description;
pub mod command;
pub mod pool;
pub mod upsert;
pub mod config;
pub mod cached;
