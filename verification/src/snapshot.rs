//! Stable byte snapshots of files: classification while reading, storage, and the proof that a
//! file did not change meanwhile.

pub mod capture;
pub mod classifier;
pub mod identity;
