//! Binary detection, trusted encoding classification, and UTF-8 transcoding.

pub mod codec;
pub mod conflict;
pub mod decoder;
pub mod detect;
pub mod editable;
pub mod laws;
pub mod legacy;
pub mod pipeline;
pub mod rejection;
pub mod segments;
pub mod stats;
pub mod stream;
pub mod utf8;
