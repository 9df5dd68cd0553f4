//! Responses that a tool hands back to its caller.

use vstd::prelude::*;

verus! {

/// Requested fidelity of an image block.
#[derive(Clone, Copy, Debug, PartialEq, Eq, Structural)]
pub enum ImageDetail {
    /// Full resolution.
    High,
}

/// One block of a response.
#[derive(Clone, Debug, PartialEq, Eq)]
pub enum ToolContent {
    /// Plain text.
    Text(String),
    /// A base64 image with its MIME type; without a detail the host chooses one.
    Image { data: String, mime_type: String, detail: Option<ImageDetail> },
}

/// A complete tool response.
#[derive(Clone, Debug, PartialEq, Eq)]
pub struct ToolResponse {
    /// Content blocks in output order.
    pub content: Vec<ToolContent>,
    /// Whether the call failed.
    pub is_error: bool,
}

impl ToolResponse {
    /// Whether the response is one text block with exactly these characters.
    pub open spec fn is_single_text(&self, text: Seq<char>) -> bool {
        &&& self.content@.len() == 1
        &&& self.content@[0] matches ToolContent::Text(block) && block@ == text
    }

    /// A successful response of one text block.
    pub fn text(text: String) -> (response: Self)
        ensures
            response.is_single_text(text@),
            !response.is_error,
    {
        ToolResponse { content: vec![ToolContent::Text(text)], is_error: false }
    }

    /// A failed response of one text block.
    pub fn error(message: String) -> (response: Self)
        ensures
            response.is_single_text(message@),
            response.is_error,
    {
        ToolResponse { content: vec![ToolContent::Text(message)], is_error: true }
    }
}

} // verus!
