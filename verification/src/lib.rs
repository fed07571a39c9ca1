//! An in-memory, append-only index over a monotonically advancing integer
//! timeline.  Time-keyed writes contribute values under an associative
//! combiner; queries return the combined value over half-open timestamp
//! intervals in logarithmic time.
//!
//! The core is a stack of 64 aligned lines: level `i` stores, at logical
//! position `t`, the combined value of the timestamp block
//! `[t << i, (t + 1) << i)`.  Each line is backed by a bounded
//! most-recently-used cache in front of an unbounded base store, so the index
//! doubles as a tiered-storage simulator that counts cache misses.

pub mod aggregate;
pub mod data;
pub mod index;
pub mod kv;
pub mod line;
pub mod mem;
pub mod traits;
pub mod tree;
