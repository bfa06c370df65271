//! Content-based duplicate detection: which files are eligible, what their
//! fingerprints are, and which of them share one.

pub mod filter;
pub mod grouping;
pub mod hashing;
pub mod parallel;
pub mod partition;
