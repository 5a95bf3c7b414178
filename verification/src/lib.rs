//! Finds groups of files that are likely identical ("clones"), reports them
//! with size and grouping statistics, and plans the deletion of all but one
//! file per group from a previously saved JSON report.
//!
//! The crate holds the duplicate-detection engine: filtering of candidate
//! files, two fingerprinting strategies (metadata-based and content-based
//! partial checksum), grouping of fingerprints into duplicate sets, and
//! deterministic sorting and aggregation of the results. Directory walking,
//! file reading, terminal output and the confirmation prompt live with the
//! caller; this crate works on plain values handed in from there.

pub mod config;
pub mod delete_plan;
pub mod fingerprint;
pub mod group;
pub mod hunt;
pub mod json;
pub mod order;
pub mod report;
pub mod scan;
pub mod traits;
