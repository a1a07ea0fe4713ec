//! Alignment of map-matched trajectories against a baseline trajectory.
//!
//! The library aligns each candidate trajectory with the baseline by a longest
//! common subsequence, keeps the baseline positions that every candidate shares,
//! and splits the baseline into matched, pre-matched and mismatched areas.
pub mod lcs;
pub mod trajectory;
pub mod union_find;
pub mod areas;
pub mod merge;
pub mod annotator;
