//! Fuzzy memory scanning: baseline snapshots of aligned values in an address
//! range, refinement of candidate addresses against relational conditions,
//! and the fixed-layout progress channel that an observer polls.

pub mod bytes;
pub mod candidates;
pub mod cluster;
pub mod extract;
pub mod scan;
pub mod shared_buffer;
pub mod value;
