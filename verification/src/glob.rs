//! Listing files: which entries of a walk match, their order, and one page of them.

pub mod entry;
pub mod laws;
pub mod listing;
pub mod request;
