//! The prose that tells a model which tool a local file belongs to.

use crate::text::{chars_of, string_of};
use vstd::prelude::*;
use vstd::string::*;

verus! {

/// A text with each line feed made a space.
pub open spec fn on_one_line(text: Seq<char>) -> Seq<char> {
    text.map(
        |i: int, character: char|
            if character == '\n' {
                ' '
            } else {
                character
            },
    )
}

fn joined_lines(text: &str) -> (line: String)
    ensures
        line@ == on_one_line(text@),
{
    let chars = chars_of(text);
    let mut line: Vec<char> = Vec::new();
    let mut index: usize = 0;
    while index < chars.len()
        invariant
            index <= chars.len(),
            chars@ == text@,
            line@ == on_one_line(text@.take(index as int)),
        decreases chars.len() - index,
    {
        let character = if chars[index] == '\n' {
            ' '
        } else {
            chars[index]
        };
        line.push(character);
        proof {
            assert(on_one_line(text@.take(index + 1)) =~= on_one_line(text@.take(index as int)).push(
                character,
            ));
        }
        index += 1;
    }
    assert(text@.take(text@.len() as int) =~= text@);
    string_of(line.as_slice())
}

/// The routing advice shared by the guidance file and every connection.
pub fn local_file_route_guidance() -> (guidance: &'static str)
    ensures
        guidance@
            == "Use FastCtx file tools directly for local-file operations, including when a\nlocal reference is URI-shaped; pass the equivalent plain absolute filesystem path."@,
{
    "Use FastCtx file tools directly for local-file operations, including when a\nlocal reference is URI-shaped; pass the equivalent plain absolute filesystem path."
}

/// The description of a path parameter.
pub fn local_path_description(context: &str) -> (description: String)
    ensures
        description@
            == "Plain absolute local filesystem path. When the source reference is URI-shaped, use its equivalent local absolute path."@
            + " "@ + context@,
{
    let mut description =
        "Plain absolute local filesystem path. When the source reference is URI-shaped, use its equivalent local absolute path.".to_owned();
    description.append(" ");
    description.append(context);
    description
}

/// The description of the inspection tool: what it is, where it applies, and what it returns.
pub fn inspect_tool_description() -> (description: String)
    ensures
        description@ == on_one_line(
            "Inspect one local filesystem path as text, an image, a PDF, or raw bytes."@,
        ) + " "@ + on_one_line(
            "Use FastCtx file tools directly for local-file operations, including when a\nlocal reference is URI-shaped; pass the equivalent plain absolute filesystem path."@,
        ) + " "@
            + "Text returns 1-based `N<tab>content` lines, as much of the file as\nthe output budget holds. Continue text or hex from the last delivered line plus one.\nImages (PNG/JPG/GIF/WebP/BMP) are\nshown to you visually. PDFs return the selected pages' text layer or those\npages rendered as images; image mode defaults to 4 pages. Continue a PDF with the\npage after the last delivered page. view=\"hex\" dumps any file's raw bytes. Text\noutput is always UTF-8; when auto-detection is not confident it returns an\nerror listing candidate encodings instead of guessed text, so pass encoding\nonly then."@,
{
    let mut description = joined_lines(
        "Inspect one local filesystem path as text, an image, a PDF, or raw bytes.",
    );
    description.append(" ");
    description.append(joined_lines(local_file_route_guidance()).as_str());
    description.append(" ");
    description.append(
        "Text returns 1-based `N<tab>content` lines, as much of the file as\nthe output budget holds. Continue text or hex from the last delivered line plus one.\nImages (PNG/JPG/GIF/WebP/BMP) are\nshown to you visually. PDFs return the selected pages' text layer or those\npages rendered as images; image mode defaults to 4 pages. Continue a PDF with the\npage after the last delivered page. view=\"hex\" dumps any file's raw bytes. Text\noutput is always UTF-8; when auto-detection is not confident it returns an\nerror listing candidate encodings instead of guessed text, so pass encoding\nonly then.",
    );
    description
}

/// The instructions of a fresh connection.
pub fn server_instructions() -> (instructions: String)
    ensures
        instructions@ == on_one_line(
            "Use FastCtx file tools directly for local-file operations, including when a\nlocal reference is URI-shaped; pass the equivalent plain absolute filesystem path."@,
        ),
{
    joined_lines(local_file_route_guidance())
}

} // verus!
