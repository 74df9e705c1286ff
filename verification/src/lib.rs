//! Per-segment sequence-complexity scoring.
//!
//! A sequence is cut into fixed-size segments; within each segment a window
//! of fixed length slides one position at a time, each window is hashed, and
//! the segment's complexity is the ratio of distinct window hashes to the
//! number of windows. Records are scored independently and the results are
//! merged back into input order.

pub mod hash;
pub mod merge;
pub mod pipeline;
pub mod scorer;
