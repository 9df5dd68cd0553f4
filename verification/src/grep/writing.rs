//! How one line of a page is written.

use crate::grep::layout::LineMatchSpan;
use crate::grep::plan;
use crate::text;
use crate::text::{decimal_text, escape_breaks, string_of};
use vstd::prelude::*;
use vstd::slice::slice_subrange;
use vstd::string::*;

verus! {

/// The longest line, in bytes, that is shown whole.
pub const LONG_LINE_BYTES: usize = 500;

/// How many characters are shown on either side of a match in a long line.
pub const MATCH_WINDOW_SIDE_CHARS: usize = 100;

/// How many characters of a match or of a long line are shown at most.
pub const MAX_MATCH_CHARS: usize = 2000;

/// The lesser of two numbers.
pub open spec fn lesser(left: usize, right: usize) -> usize {
    if left < right {
        left
    } else {
        right
    }
}

/// A difference that stops at zero.
pub open spec fn less(left: usize, right: usize) -> usize {
    if left < right {
        0
    } else {
        (left - right) as usize
    }
}

/// What stands before a line: its number and a mark, where numbers are shown.
pub open spec fn line_prefix(number: u64, mark: Seq<char>, numbers: bool) -> Seq<char> {
    if numbers {
        text::decimal(number as nat) + mark
    } else {
        Seq::empty()
    }
}

/// What stands before a matching line.
pub fn match_prefix(number: u64, numbers: bool) -> (prefix: String)
    ensures
        prefix@ == line_prefix(number, ":"@, numbers),
{
    if numbers {
        let mut prefix = decimal_text(number);
        prefix.append(":");
        prefix
    } else {
        let prefix = String::new();
        assert(prefix@ =~= Seq::<char>::empty());
        prefix
    }
}

/// What stands before a context line.
pub fn context_prefix(number: u64, numbers: bool) -> (prefix: String)
    ensures
        prefix@ == line_prefix(number, "-"@, numbers),
{
    if numbers {
        let mut prefix = decimal_text(number);
        prefix.append("-");
        prefix
    } else {
        let prefix = String::new();
        assert(prefix@ =~= Seq::<char>::empty());
        prefix
    }
}

/// The words for a match that is not shown whole.
pub open spec fn truncation(chars: nat) -> Seq<char> {
    "... [match truncated: "@ + text::decimal(chars) + " chars total]"@
}

fn write_truncation(chars: usize) -> (words: String)
    ensures
        words@ == truncation(chars as nat),
{
    let mut words = "... [match truncated: ".to_owned();
    words.append(decimal_text(chars as u64).as_str());
    words.append(" chars total]");
    words
}

/// A window of at least one character.
pub open spec fn at_least_one(window: usize) -> usize {
    if window == 0 {
        1
    } else {
        window
    }
}

/// A matched text on one line, cut to a window.
pub open spec fn only_match(prefix: Seq<char>, matched: Seq<char>, window: usize) -> Seq<char> {
    let width = at_least_one(window);
    if matched.len() <= width {
        prefix + text::escaped_breaks(matched)
    } else {
        prefix + text::escaped_breaks(matched.take(width as int)) + truncation(matched.len())
    }
}

/// A matched text on one line, cut to a window.
pub fn format_only_match(prefix: String, matched: &[char], window: usize) -> (line: String)
    ensures
        line@ == only_match(prefix@, matched@, window),
{
    let width: usize = if window == 0 {
        1
    } else {
        window
    };
    let mut line = prefix;
    if matched.len() <= width {
        line.append(string_of(escape_breaks(matched).as_slice()).as_str());
    } else {
        let part = slice_subrange(matched, 0, width);
        assert(part@ =~= matched@.take(width as int));
        line.append(string_of(escape_breaks(part).as_slice()).as_str());
        line.append(write_truncation(matched.len()).as_str());
    }
    line
}

/// The part of a line that a span covers, inside the line.
pub open spec fn clipped(span: LineMatchSpan, len: usize) -> (usize, usize) {
    let start = lesser(span.match_char_start, len);
    (start, lesser(plan::sat(start, span.match_char_len), len))
}

/// The parts of a line that spans cover; without spans, an empty part at its begin.
pub open spec fn clipped_spans(spans: Seq<LineMatchSpan>, len: usize) -> Seq<(usize, usize)> {
    if spans.len() == 0 {
        seq![(0usize, 0usize)]
    } else {
        spans.map(|i: int, span: LineMatchSpan| clipped(span, len))
    }
}

/// The first of some parts: the one that begins first, and of those the shortest.
pub open spec fn first_part(parts: Seq<(usize, usize)>) -> (usize, usize)
    decreases parts.len(),
{
    if parts.len() <= 1 {
        parts[0]
    } else {
        let before = first_part(parts.drop_last());
        let last = parts.last();
        if last.0 < before.0 || (last.0 == before.0 && last.1 < before.1) {
            last
        } else {
            before
        }
    }
}

/// Where the last of some parts ends.
pub open spec fn last_end(parts: Seq<(usize, usize)>) -> usize
    decreases parts.len(),
{
    if parts.len() <= 1 {
        parts[0].1
    } else {
        let before = last_end(parts.drop_last());
        if before < parts.last().1 {
            parts.last().1
        } else {
            before
        }
    }
}

/// The characters of a long line that are shown: those around all matches where they fit the
/// window, else those around the first match.
pub open spec fn shown_window(
    first: (usize, usize),
    end: usize,
    len: usize,
    window: usize,
) -> (usize, usize) {
    let width = at_least_one(window);
    let from = less(first.0, MATCH_WINDOW_SIDE_CHARS);
    let to = lesser(plan::sat(end, MATCH_WINDOW_SIDE_CHARS), len);
    if less(to, from) <= width {
        (from, to)
    } else {
        let start = less(first.0, lesser(MATCH_WINDOW_SIDE_CHARS, width / 4));
        let stop = lesser(plan::sat(start, width), len);
        if stop == len {
            let moved = lesser(less(stop, width), first.0);
            (moved, lesser(plan::sat(moved, width), len))
        } else {
            (start, stop)
        }
    }
}

/// Whether a part lies outside a window.
pub open spec fn any_outside(parts: Seq<(usize, usize)>, window: (usize, usize)) -> bool {
    exists|i: int|
        0 <= i < parts.len() && ((#[trigger] parts[i]).0 < window.0 || parts[i].1 > window.1)
}

/// A window of a long line, with the words that tell so.
pub open spec fn windowed_line(
    prefix: Seq<char>,
    chars: Seq<char>,
    shown: (usize, usize),
    truncated: Option<usize>,
    more: bool,
) -> Seq<char> {
    prefix + (if shown.0 > 0 {
        "…"@
    } else {
        ""@
    }) + chars.subrange(shown.0 as int, shown.1 as int) + (match truncated {
        Some(count) => truncation(count as nat),
        None => ""@,
    }) + (if shown.1 < chars.len() {
        "…"@
    } else {
        ""@
    }) + " [line is "@ + text::decimal(chars.len())
        + " chars; showing window around match(es)"@ + (if more {
        "; additional matches fall outside this window"@
    } else {
        ""@
    }) + "]"@
}

/// A matching line: whole when it is short, else a window of it.
pub open spec fn match_line(
    prefix: Seq<char>,
    bytes: usize,
    chars: Seq<char>,
    spans: Seq<LineMatchSpan>,
    window: usize,
) -> Seq<char> {
    if bytes <= LONG_LINE_BYTES {
        prefix + chars
    } else {
        let len = chars.len() as usize;
        let parts = clipped_spans(spans, len);
        let first = first_part(parts);
        let shown = shown_window(first, last_end(parts), len, window);
        windowed_line(
            prefix,
            chars,
            shown,
            if first.1 > shown.1 || first.0 < shown.0 {
                Some(less(first.1, first.0))
            } else {
                None
            },
            parts.len() > 1 && any_outside(parts, shown),
        )
    }
}

fn lesser_of(left: usize, right: usize) -> (result: usize)
    ensures
        result == lesser(left, right),
{
    if left < right {
        left
    } else {
        right
    }
}

/// Every clipped part lies in the line, and the first one begins and ends no later than the last
/// end.
proof fn parts_in_line(spans: Seq<LineMatchSpan>, len: usize, count: int)
    requires
        1 <= count <= clipped_spans(spans, len).len(),
    ensures
        ({
            let parts = clipped_spans(spans, len).take(count);
            &&& first_part(parts).0 <= first_part(parts).1 <= last_end(parts) <= len
        }),
    decreases count,
{
    let parts = clipped_spans(spans, len).take(count);
    if count > 1 {
        parts_in_line(spans, len, count - 1);
        assert(parts.drop_last() =~= clipped_spans(spans, len).take(count - 1));
    }
}

/// A window lies in the line and around the begin of the first match.
proof fn window_in_line(first: (usize, usize), end: usize, len: usize, window: usize)
    requires
        first.0 <= first.1 <= end <= len,
    ensures
        shown_window(first, end, len, window).0 <= shown_window(first, end, len, window).1 <= len,
{
}

fn clip_spans(spans: &Vec<LineMatchSpan>, len: usize) -> (parts: Vec<(usize, usize)>)
    ensures
        parts@ == clipped_spans(spans@, len),
        parts@.len() >= 1,
{
    let mut parts: Vec<(usize, usize)> = Vec::new();
    let mut index: usize = 0;
    while index < spans.len()
        invariant
            index <= spans.len(),
            parts@ == spans@.take(index as int).map(
                |i: int, span: LineMatchSpan| clipped(span, len),
            ),
        decreases spans.len() - index,
    {
        let span = spans[index];
        let start = lesser_of(span.match_char_start, len);
        let end = lesser_of(start.saturating_add(span.match_char_len), len);
        parts.push((start, end));
        assert(parts@ =~= spans@.take(index + 1).map(
            |i: int, span: LineMatchSpan| clipped(span, len),
        ));
        index += 1;
    }
    if parts.len() == 0 {
        parts.push((0, 0));
    }
    proof {
        assert(spans@.take(spans@.len() as int) =~= spans@);
        assert(parts@ =~= clipped_spans(spans@, len));
    }
    parts
}

fn bounds(parts: &Vec<(usize, usize)>) -> (bounds: ((usize, usize), usize))
    requires
        parts@.len() >= 1,
    ensures
        bounds.0 == first_part(parts@),
        bounds.1 == last_end(parts@),
{
    let mut first = parts[0];
    let mut end = parts[0].1;
    let mut at: usize = 1;
    assert(parts@.take(1)[0] == parts@[0]);
    while at < parts.len()
        invariant
            1 <= at <= parts.len(),
            first == first_part(parts@.take(at as int)),
            end == last_end(parts@.take(at as int)),
        decreases parts.len() - at,
    {
        let part = parts[at];
        proof {
            assert(parts@.take(at + 1).drop_last() =~= parts@.take(at as int));
            assert(parts@.take(at + 1).last() == part);
        }
        if part.0 < first.0 || (part.0 == first.0 && part.1 < first.1) {
            first = part;
        }
        if end < part.1 {
            end = part.1;
        }
        at += 1;
    }
    assert(parts@.take(parts@.len() as int) =~= parts@);
    (first, end)
}

fn choose_window(first: (usize, usize), end: usize, len: usize, window: usize) -> (shown: (
    usize,
    usize,
))
    requires
        first.0 <= first.1 <= end <= len,
    ensures
        shown == shown_window(first, end, len, window),
        shown.0 <= shown.1 <= len,
{
    proof {
        window_in_line(first, end, len, window);
    }
    let width: usize = if window == 0 {
        1
    } else {
        window
    };
    let from = first.0.saturating_sub(MATCH_WINDOW_SIDE_CHARS);
    let to = lesser_of(end.saturating_add(MATCH_WINDOW_SIDE_CHARS), len);
    if to.saturating_sub(from) <= width {
        (from, to)
    } else {
        let start = first.0.saturating_sub(lesser_of(MATCH_WINDOW_SIDE_CHARS, width / 4));
        let stop = lesser_of(start.saturating_add(width), len);
        if stop == len {
            let moved = lesser_of(stop.saturating_sub(width), first.0);
            (moved, lesser_of(moved.saturating_add(width), len))
        } else {
            (start, stop)
        }
    }
}

fn lies_outside(parts: &Vec<(usize, usize)>, shown: (usize, usize)) -> (outside: bool)
    ensures
        outside == any_outside(parts@, shown),
{
    let mut looked: usize = 0;
    while looked < parts.len()
        invariant
            looked <= parts.len(),
            forall|i: int|
                0 <= i < looked ==> !((#[trigger] parts@[i]).0 < shown.0 || parts@[i].1 > shown.1),
        decreases parts.len() - looked,
    {
        let part = parts[looked];
        if part.0 < shown.0 || part.1 > shown.1 {
            assert(parts@[looked as int].0 < shown.0 || parts@[looked as int].1 > shown.1);
            return true;
        }
        looked += 1;
    }
    false
}

fn write_window(
    prefix: String,
    chars: &[char],
    shown: (usize, usize),
    truncated: Option<usize>,
    more: bool,
) -> (line: String)
    requires
        shown.0 <= shown.1 <= chars@.len(),
    ensures
        line@ == windowed_line(prefix@, chars@, shown, truncated, more),
{
    let mut line = prefix;
    line.append(
        if shown.0 > 0 {
            "…"
        } else {
            ""
        },
    );
    let part = slice_subrange(chars, shown.0, shown.1);
    line.append(string_of(part).as_str());
    match truncated {
        Some(count) => {
            line.append(write_truncation(count).as_str());
        },
        None => {
            line.append("");
        },
    }
    line.append(
        if shown.1 < chars.len() {
            "…"
        } else {
            ""
        },
    );
    line.append(" [line is ");
    line.append(decimal_text(chars.len() as u64).as_str());
    line.append(" chars; showing window around match(es)");
    line.append(
        if more {
            "; additional matches fall outside this window"
        } else {
            ""
        },
    );
    line.append("]");
    line
}

/// A matching line: whole when it is short, else a window of it.
pub fn format_match_line(
    prefix: String,
    bytes: usize,
    chars: &[char],
    spans: &Vec<LineMatchSpan>,
    window: usize,
) -> (line: String)
    ensures
        line@ == match_line(prefix@, bytes, chars@, spans@, window),
{
    if bytes <= LONG_LINE_BYTES {
        let mut line = prefix;
        line.append(string_of(chars).as_str());
        return line;
    }
    let len = chars.len();
    let parts = clip_spans(spans, len);
    let (first, end) = bounds(&parts);
    proof {
        parts_in_line(spans@, len, parts@.len() as int);
        assert(parts@.take(parts@.len() as int) =~= parts@);
    }
    let shown = choose_window(first, end, len, window);
    let truncated = if first.1 > shown.1 || first.0 < shown.0 {
        Some(first.1.saturating_sub(first.0))
    } else {
        None
    };
    let more = parts.len() > 1 && lies_outside(&parts, shown);
    write_window(prefix, chars, shown, truncated, more)
}

/// A context line: whole when it is short, else only its length.
pub open spec fn context_line(prefix: Seq<char>, bytes: usize, chars: Seq<char>) -> Seq<char> {
    if bytes <= LONG_LINE_BYTES {
        prefix + chars
    } else {
        prefix + "[long line omitted: "@ + text::decimal(chars.len()) + " chars]"@
    }
}

/// A context line: whole when it is short, else only its length.
pub fn format_context_line(prefix: String, bytes: usize, chars: &[char]) -> (line: String)
    ensures
        line@ == context_line(prefix@, bytes, chars@),
{
    let mut line = prefix;
    if bytes <= LONG_LINE_BYTES {
        line.append(string_of(chars).as_str());
    } else {
        line.append("[long line omitted: ");
        line.append(decimal_text(chars.len() as u64).as_str());
        line.append(" chars]");
    }
    line
}

} // verus!
