//! Searching file contents: the search plan, capturing matches, paging and rendering.

pub mod capture_laws;
pub mod laws;
pub mod page_laws;
pub mod layout;
pub mod matcher;
pub mod plan;
pub mod sink;
pub mod capture;
pub mod search;
pub mod outcome;
pub mod reduce;
pub mod request;
pub mod ranges;
pub mod writing;
pub mod lines;
pub mod render;
pub mod content;
pub mod run;
