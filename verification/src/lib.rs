//! Verified core of a local-context toolset: trusted text decoding, ripgrep-style search
//! reduction, glob listing, and byte-preserving batch replacement.

pub mod bytes;
pub mod edit;
pub mod encoding;
pub mod environment;
pub mod executor;
pub mod glob;
pub mod grep;
pub mod head_note;
pub mod model;
pub mod model_guidance;
pub mod operation;
pub mod ordered_run;
pub mod ordered_window;
pub mod ordering;
pub mod page;
pub mod paging;
pub mod parallel;
pub mod positions;
pub mod queue;
pub mod snapshot;
pub mod text;
