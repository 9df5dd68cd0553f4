//! Byte-preserving batch replacement.

pub mod batch_laws;
pub mod course;
pub mod digest;
pub mod document;
pub mod laws;
pub mod locks;
pub mod pattern;
pub mod private_storage;
pub mod replacement;
pub mod report;
pub mod service;
pub mod template_laws;
