//! A primary-keyed, level-bucketed in-memory buffer: each write carries a
//! timestamp and a key; queries gather one key's values across the buckets
//! at or above a level.

pub mod memory_buffer;
pub mod metrics;
pub mod timestamp_element;
