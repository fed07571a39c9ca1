//! A level-bucketed in-memory buffer: writes land in the bucket named by
//! their timestamp's level, and a single line keeps per-position aggregates
//! through a binary skip structure.

pub mod line;
pub mod memory_buffer;
pub mod metric;
