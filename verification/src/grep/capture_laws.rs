//! What capturing promises, said of bytes, line feeds and line numbers alone.

use crate::grep::capture;
use crate::grep::capture::{
    Block, BlockState, CaptureRules, CaptureState, ContentEntry, PendingSpec,
};
use crate::grep::layout;
use crate::grep::layout::LineSpec;
use crate::grep::matcher::{ContextKind, EventSpec, GrepMatcher};
use crate::grep::plan::GrepSearchPlan;
use crate::grep::search;
use crate::grep::search::PlanState;
use crate::grep::sink;
use crate::positions::{one_more_position, positions};
use vstd::prelude::*;

verus! {

/// How many line feeds stand before a position.
pub open spec fn feeds_before(bytes: Seq<u8>, at: int) -> nat {
    positions(at, |i: int| bytes[i] == 10).len()
}

proof fn one_more_feed(bytes: Seq<u8>, at: int)
    requires
        0 <= at,
    ensures
        feeds_before(bytes, 0) == 0,
        feeds_before(bytes, at + 1) == feeds_before(bytes, at) + if bytes[at] == 10 {
            1nat
        } else {
            0nat
        },
{
    one_more_position(at, |i: int| bytes[i] == 10);
}

proof fn feeds_grow(bytes: Seq<u8>, from: int, to: int)
    requires
        0 <= from <= to,
    ensures
        feeds_before(bytes, from) <= feeds_before(bytes, to),
    decreases to - from,
{
    if from < to {
        feeds_grow(bytes, from, to - 1);
        one_more_feed(bytes, to - 1);
    }
}

proof fn start_of_line(bytes: Seq<u8>, at: int)
    requires
        0 <= at <= bytes.len(),
    ensures
        0 <= layout::line_start(bytes, at) <= at,
        layout::line_start(bytes, at) == 0 || bytes[layout::line_start(bytes, at) - 1] == 10,
        forall|i: int| layout::line_start(bytes, at) <= i < at ==> bytes[i] != 10,
        feeds_before(bytes, layout::line_start(bytes, at)) == feeds_before(bytes, at),
    decreases at,
{
    if at > 0 && bytes[at - 1] != 10 {
        start_of_line(bytes, at - 1);
        one_more_feed(bytes, at - 1);
    }
}

proof fn closed_lines_end_at_feeds(bytes: Seq<u8>, at: int)
    requires
        0 <= at <= bytes.len(),
    ensures
        layout::closed_lines(bytes, at).len() == feeds_before(bytes, at),
        forall|k: int|
            0 <= k < layout::closed_lines(bytes, at).len() ==> {
                let line = #[trigger] layout::closed_lines(bytes, at)[k];
                &&& 0 <= line.start < line.full_end <= at
                &&& bytes[line.full_end - 1] == 10
                &&& feeds_before(bytes, line.full_end - 1) == k
                &&& line.start == layout::line_start(bytes, line.full_end - 1)
                &&& line.end == layout::text_end(bytes, line.start, line.full_end - 1)
            },
    decreases at,
{
    if at > 0 {
        closed_lines_end_at_feeds(bytes, at - 1);
        one_more_feed(bytes, at - 1);
        start_of_line(bytes, at - 1);
        let before = layout::closed_lines(bytes, at - 1);
        let all = layout::closed_lines(bytes, at);
        assert forall|k: int| 0 <= k < all.len() implies {
            let line = #[trigger] all[k];
            &&& 0 <= line.start < line.full_end <= at
            &&& bytes[line.full_end - 1] == 10
            &&& feeds_before(bytes, line.full_end - 1) == k
            &&& line.start == layout::line_start(bytes, line.full_end - 1)
            &&& line.end == layout::text_end(bytes, line.start, line.full_end - 1)
        } by {
            if k < before.len() {
                assert(all[k] == before[k]);
            }
        }
    } else {
        one_more_feed(bytes, 0);
    }
}

/// A block is cut into lines at its line feeds: each line begins behind the one before it, holds no
/// line feed, and ends before its line feed, or before a carriage return that stands there.
pub proof fn lines_are_cut_at_line_feeds(bytes: Seq<u8>, k: int)
    requires
        0 <= k < layout::lines_of(bytes).len(),
    ensures
        ({
            let lines = layout::lines_of(bytes);
            let line = lines[k];
            &&& 0 <= line.start <= line.end <= line.full_end <= bytes.len()
            &&& line.start == 0 <==> k == 0
            &&& k > 0 ==> line.start == lines[k - 1].full_end && bytes[line.start - 1] == 10
            &&& feeds_before(bytes, line.start) == k
            &&& forall|i: int| line.start <= i < line.end ==> bytes[i] != 10
            &&& line.full_end < bytes.len() ==> bytes[line.full_end - 1] == 10
            &&& k + 1 == lines.len() ==> line.full_end == bytes.len()
            &&& {
                ||| line.end == line.full_end && line.full_end == bytes.len()
                ||| line.end == line.full_end - 1 && bytes[line.end] == 10 && (line.end
                    == line.start || bytes[line.end - 1] != 13)
                ||| line.end == line.full_end - 2 && bytes[line.end] == 13 && bytes[line.end + 1]
                    == 10
            }
        }),
{
    let len = bytes.len() as int;
    let lines = layout::lines_of(bytes);
    let closed = layout::closed_lines(bytes, len);
    closed_lines_end_at_feeds(bytes, len);
    start_of_line(bytes, len);
    one_more_feed(bytes, 0);
    let start = layout::line_start(bytes, len);
    assert forall|i: int| 0 <= i < closed.len() implies feeds_before(
        bytes,
        (#[trigger] closed[i]).full_end,
    ) == i + 1 by {
        one_more_feed(bytes, closed[i].full_end - 1);
    }
    if k < closed.len() {
        let line = closed[k];
        assert(lines[k] == line);
        start_of_line(bytes, line.full_end - 1);
        if k == 0 {
            if line.start > 0 {
                one_more_feed(bytes, line.start - 1);
            }
        } else {
            let before = closed[k - 1];
            assert(lines[k - 1] == before);
            same_start(bytes, line.start, before.full_end);
        }
        if k + 1 == lines.len() {
            assert(closed.len() == lines.len());
            assert(start == len);
            if line.full_end < len {
                one_more_feed(bytes, len - 1);
                feeds_grow(bytes, line.full_end, len - 1);
            }
        }
    } else {
        assert(k == closed.len());
        if k > 0 {
            let before = closed[k - 1];
            assert(lines[k - 1] == before);
            same_start(bytes, start, before.full_end);
        } else if start > 0 {
            one_more_feed(bytes, start - 1);
        }
    }
}

proof fn same_start(bytes: Seq<u8>, left: int, right: int)
    requires
        0 < right,
        0 <= left,
        bytes[right - 1] == 10,
        left == 0 || bytes[left - 1] == 10,
        feeds_before(bytes, left) == feeds_before(bytes, right),
    ensures
        left == right,
{
    one_more_feed(bytes, 0);
    one_more_feed(bytes, right - 1);
    if left > 0 {
        one_more_feed(bytes, left - 1);
    }
    if left < right {
        feeds_grow(bytes, left, right - 1);
    }
    if right < left {
        feeds_grow(bytes, right, left - 1);
    }
}

/// A byte of a block lies on the line with as many lines before it as there are line feeds before
/// the byte.
pub proof fn lines_are_counted_by_line_feeds(bytes: Seq<u8>, offset: int)
    requires
        0 <= offset < bytes.len(),
    ensures
        layout::line_of(layout::lines_of(bytes), offset) == feeds_before(bytes, offset),
        feeds_before(bytes, offset) < layout::lines_of(bytes).len(),
{
    let lines = layout::lines_of(bytes);
    let k = feeds_before(bytes, offset) as int;
    let len = bytes.len() as int;
    closed_lines_end_at_feeds(bytes, len);
    start_of_line(bytes, len);
    feeds_grow(bytes, offset, len);
    if k >= lines.len() {
        let start = layout::line_start(bytes, len);
        assert(start == len);
        one_more_feed(bytes, len - 1);
        feeds_grow(bytes, offset, len - 1);
    }
    line_found(bytes, offset, 0);
}

proof fn line_found(bytes: Seq<u8>, offset: int, from: int)
    requires
        0 <= offset < bytes.len(),
        0 <= from <= feeds_before(bytes, offset) < layout::lines_of(bytes).len(),
    ensures
        layout::line_from(layout::lines_of(bytes), from, offset) == feeds_before(bytes, offset),
    decreases layout::lines_of(bytes).len() - from,
{
    let lines = layout::lines_of(bytes);
    let k = feeds_before(bytes, offset) as int;
    lines_are_cut_at_line_feeds(bytes, from);
    if from < k {
        lines_are_cut_at_line_feeds(bytes, from + 1);
        if offset < lines[from].full_end {
            feeds_grow(bytes, offset, lines[from].full_end - 1);
            closed_lines_end_at_feeds(bytes, bytes.len() as int);
            assert(lines[from] == layout::closed_lines(bytes, bytes.len() as int)[from]);
        }
        line_found(bytes, offset, from + 1);
    } else if from + 1 < lines.len() {
        lines_are_cut_at_line_feeds(bytes, from + 1);
        if offset >= lines[from].full_end {
            feeds_grow(bytes, lines[from].full_end, offset);
        }
    }
}

/// An occurrence that is kept begins on the line of its first byte and ends on the line of its last,
/// counted from the first line of its block, and lies in the text where it lies in the block.
pub proof fn occurrences_lie_on_the_lines_of_their_bytes(
    rules: CaptureRules,
    block: Block,
    state: CaptureState,
    part: BlockState,
    found: (usize, usize),
)
    requires
        found.0 < found.1 <= block.bytes.len(),
        block.first + block.bytes.len() <= u64::MAX,
        block.base + block.bytes.len() <= u64::MAX,
    ensures
        capture::occurrence_step(rules, block, state, part, found) matches Ok((_, after, _)) ==> {
            ||| after.pending == part.pending
            ||| {
                let kept = after.pending.last();
                &&& after.pending == part.pending.push(kept)
                &&& kept.start_line == block.first + feeds_before(block.bytes, found.0 as int)
                &&& kept.end_line == block.first + feeds_before(block.bytes, found.1 - 1)
                &&& kept.range == ((block.base + found.0) as u64, (block.base + found.1) as u64)
                &&& kept.line_spans.len() == kept.end_line - kept.start_line + 1
                &&& forall|i: int|
                    0 <= i < kept.line_spans.len() ==> (#[trigger] kept.line_spans[i]).line_number
                        == kept.start_line + i
            }
        },
{
    let bytes = block.bytes;
    lines_are_counted_by_line_feeds(bytes, found.0 as int);
    lines_are_counted_by_line_feeds(bytes, found.1 - 1);
    feeds_grow(bytes, found.0 as int, found.1 - 1);
    feeds_bounded(bytes, found.0 as int);
    feeds_bounded(bytes, found.1 - 1);
}

proof fn feeds_bounded(bytes: Seq<u8>, at: int)
    requires
        0 <= at,
    ensures
        feeds_before(bytes, at) <= at,
    decreases at,
{
    if at > 0 {
        feeds_bounded(bytes, at - 1);
        one_more_feed(bytes, at - 1);
    } else {
        one_more_feed(bytes, 0);
    }
}

/// How many characters begin between two positions of a UTF-8 text.
pub proof fn characters_begin_at_leading_bytes(bytes: Seq<u8>, from: int, to: int)
    requires
        0 <= from <= to,
    ensures
        layout::characters(bytes, from, to) + positions(
            from,
            |i: int| !(0x80 <= bytes[i] <= 0xbf),
        ).len() == positions(to, |i: int| !(0x80 <= bytes[i] <= 0xbf)).len(),
    decreases to - from,
{
    if to > from {
        characters_begin_at_leading_bytes(bytes, from, to - 1);
        one_more_position(to - 1, |i: int| !(0x80 <= bytes[i] <= 0xbf));
    }
}

/// In a line whose characters are counted no further than to a match, the span of the match begins
/// behind as many characters as the line has before it, and is as long as the match has characters
/// there.
pub proof fn spans_count_characters(
    bytes: Seq<u8>,
    line: LineSpec,
    counted: int,
    start: int,
    end: int,
)
    requires
        0 <= line.start <= counted <= start < end <= line.end <= bytes.len(),
    ensures
        layout::covered(bytes, line, counted, start, end) == (
            layout::characters(bytes, line.start, start),
            layout::characters(bytes, start, end),
        ),
        layout::counted_to(line, counted, start, end) == end,
{
    characters_split(bytes, line.start, start, end);
}

proof fn characters_split(bytes: Seq<u8>, from: int, middle: int, to: int)
    requires
        from <= middle <= to,
    ensures
        layout::characters(bytes, from, to) == layout::characters(bytes, from, middle)
            + layout::characters(bytes, middle, to),
    decreases to - middle,
{
    if to > middle {
        characters_split(bytes, from, middle, to - 1);
    }
}

/// A selected match keeps the lines that came just before it, and asks for as many lines behind its
/// last line as the request has.
pub proof fn a_match_keeps_the_lines_before_it(state: CaptureState, rules: CaptureRules, last: u64)
    requires
        last + rules.spec.after_context <= u64::MAX,
    ensures
        state.taken(rules, last) matches Ok(after) ==> {
            &&& forall|i: int|
                0 <= i < state.recent.len() ==> after.lines.contains_key(
                    (#[trigger] state.recent[i]).0,
                )
            &&& forall|number: u64|
                #[trigger] after.lines.contains_key(number) ==> state.lines.contains_key(number)
                    || exists|i: int|
                    0 <= i < state.recent.len() && (#[trigger] state.recent[i]).0 == number
            &&& forall|number: u64| #[trigger]
                state.lines.contains_key(number) ==> after.lines.contains_key(number)
                    && after.lines[number] == state.lines[number]
            &&& after.recent.len() == 0
            &&& after.after_until >= last + rules.spec.after_context
            &&& after.after_until == state.after_until || after.after_until == last
                + rules.spec.after_context
            &&& after.selected == state.selected + 1
        },
{
    recent_lines_join(state.lines, state.stored_bytes, state.recent);
}

proof fn recent_lines_join(
    lines: Map<u64, (u64, u64)>,
    stored: usize,
    recent: Seq<(u64, (u64, u64))>,
)
    ensures
        ({
            let after = capture::committed(lines, stored, recent).0;
            &&& forall|i: int|
                0 <= i < recent.len() ==> after.contains_key((#[trigger] recent[i]).0)
            &&& forall|number: u64|
                #[trigger] after.contains_key(number) ==> lines.contains_key(number)
                    || exists|i: int| 0 <= i < recent.len() && (#[trigger] recent[i]).0 == number
            &&& forall|number: u64| #[trigger]
                lines.contains_key(number) ==> after.contains_key(number) && after[number]
                    == lines[number]
        }),
    decreases recent.len(),
{
    if recent.len() > 0 {
        let rest = recent.drop_last();
        recent_lines_join(lines, stored, rest);
        let before = capture::committed(lines, stored, rest).0;
        let after = capture::committed(lines, stored, recent).0;
        assert forall|i: int| 0 <= i < recent.len() implies after.contains_key(
            (#[trigger] recent[i]).0,
        ) by {
            if i < rest.len() {
                assert(rest[i] == recent[i]);
                assert(before.contains_key(rest[i].0));
            }
        }
        assert forall|number: u64| #[trigger] after.contains_key(number) implies lines.contains_key(
            number,
        ) || exists|i: int| 0 <= i < recent.len() && (#[trigger] recent[i]).0 == number by {
            if before.contains_key(number) {
                if !lines.contains_key(number) {
                    let i = choose|i: int|
                        0 <= i < rest.len() && (#[trigger] rest[i]).0 == number;
                    assert(recent[i].0 == number);
                }
            } else {
                assert(recent[recent.len() - 1].0 == number);
            }
        }
        assert forall|number: u64| #[trigger] lines.contains_key(number) implies after.contains_key(
            number,
        ) && after[number] == lines[number] by {
            assert(before.contains_key(number));
        }
    }
}

/// A line that the searcher reports as context is kept where it lies within the lines that the last
/// match asked for. Where lines before a match are wanted it is also remembered for the next match,
/// with no more lines than wanted; where none are wanted, none is.
pub proof fn context_lines_follow_or_wait(
    rules: CaptureRules,
    state: CaptureState,
    bytes: Seq<u8>,
    base: u64,
    number: u64,
    kind: ContextKind,
)
    requires
        state.recent.len() <= rules.spec.before_context,
        base + bytes.len() <= u64::MAX,
    ensures
        capture::context_step(rules, state, bytes, base, Some(number), kind) matches Ok(after) ==> {
            &&& number <= state.after_until ==> after.lines.contains_key(number)
            &&& number > state.after_until ==> after.lines == state.lines
            &&& number <= state.after_until && !state.lines.contains_key(number)
                ==> after.lines[number] == (base, (base + line_len(bytes)) as u64)
            &&& after.after_until == state.after_until
            &&& after.recent.len() <= rules.spec.before_context
            &&& rules.spec.before_context > 0 && kind != ContextKind::Other
                ==> after.recent.last().0 == number
            &&& rules.spec.before_context > 0 && kind != ContextKind::Other && (
            state.recent.len() == 0 || state.recent.last().0 != number) ==> {
                &&& after.recent.last() == (number, (base, (base + line_len(bytes)) as u64))
                &&& state.recent.len() < rules.spec.before_context ==> after.recent.drop_last()
                    == state.recent
                &&& state.recent.len() == rules.spec.before_context ==> after.recent.drop_last()
                    == state.recent.drop_first()
            }
            &&& rules.spec.before_context == 0 ==> after.recent == state.recent
        },
{
    line_len_is_stripped(bytes);
    if let Ok(after) = capture::context_step(rules, state, bytes, base, Some(number), kind) {
        if rules.spec.before_context > 0 && kind != ContextKind::Other && (state.recent.len() == 0
            || state.recent.last().0 != number) {
            assert(after.recent.drop_last() =~= if state.recent.len()
                < rules.spec.before_context {
                state.recent
            } else {
                state.recent.drop_first()
            });
        }
    }
}

/// The length of a line without its line end: `\n`, `\r\n` or a last `\r`.
pub open spec fn line_len(bytes: Seq<u8>) -> int {
    let len = bytes.len() as int;
    if len >= 2 && bytes[len - 1] == 10 && bytes[len - 2] == 13 {
        len - 2
    } else if len >= 1 && (bytes[len - 1] == 10 || bytes[len - 1] == 13) {
        len - 1
    } else {
        len
    }
}

proof fn line_len_is_stripped(bytes: Seq<u8>)
    ensures
        layout::without_terminator(bytes) == line_len(bytes),
        0 <= line_len(bytes) <= bytes.len(),
{
}

/// The occurrences of a block that count: all but the empty one behind its last line feed.
pub open spec fn counting(bytes: Seq<u8>, found: Seq<(usize, usize)>) -> Seq<(usize, usize)> {
    found.filter(
        |one: (usize, usize)|
            !(one.0 == bytes.len() && one.1 == bytes.len() && bytes.len() > 0 && bytes[bytes.len()
                - 1] == 10),
    )
}

proof fn genuine_are_counting(bytes: Seq<u8>, found: Seq<(usize, usize)>)
    ensures
        sink::genuine(bytes, found) == counting(bytes, found),
    decreases found.len(),
{
    reveal(Seq::filter);
    if found.len() > 0 {
        genuine_are_counting(bytes, found.drop_last());
    } else {
        assert(counting(bytes, found) =~= Seq::<(usize, usize)>::empty());
    }
}

/// How many occurrences the reported blocks have.
pub open spec fn occurrences_in(matcher: GrepMatcher, events: Seq<EventSpec>) -> nat
    decreases events.len(),
{
    if events.len() == 0 {
        0
    } else {
        occurrences_in(matcher, events.drop_last()) + match events.last() {
            EventSpec::Matched { bytes, .. } => counting(bytes, matcher.found_in(bytes)).len(),
            _ => 0,
        }
    }
}

/// A count is the number of occurrences in all the blocks that the searcher reports.
pub proof fn counting_counts_every_occurrence(matcher: GrepMatcher, events: Seq<EventSpec>)
    ensures
        match search::event_steps(matcher, search::begun(GrepSearchPlan::Count), events) {
            Ok((state, goes_on)) => {
                &&& goes_on
                &&& state matches PlanState::Count(counted)
                &&& counted.occurrence_total == occurrences_in(matcher, events)
            },
            Err(_) => occurrences_in(matcher, events) > usize::MAX,
        },
    decreases events.len(),
{
    if events.len() > 0 {
        counting_counts_every_occurrence(matcher, events.drop_last());
        if let EventSpec::Matched { bytes, .. } = events.last() {
            genuine_are_counting(bytes, matcher.found_in(bytes));
        }
    }
}

/// A file is listed exactly where one of the reported blocks has an occurrence.
pub proof fn a_file_with_an_occurrence_is_listed(matcher: GrepMatcher, events: Seq<EventSpec>)
    ensures
        search::event_steps(matcher, search::begun(GrepSearchPlan::Exists), events) matches Ok(
            (state, goes_on),
        ) && {
            &&& state matches PlanState::Exists(looked)
            &&& looked.matched <==> occurrences_in(matcher, events) > 0
            &&& goes_on <==> !looked.matched
        },
    decreases events.len(),
{
    if events.len() > 0 {
        a_file_with_an_occurrence_is_listed(matcher, events.drop_last());
        if let EventSpec::Matched { bytes, .. } = events.last() {
            genuine_are_counting(bytes, matcher.found_in(bytes));
        }
    }
}

/// Of a block, the lines that its kept occurrences touch are kept, and those that still follow an
/// earlier match, each with the place of its text; lines that were kept before stay.
pub proof fn lines_of_kept_matches_are_kept(
    state: CaptureState,
    rules: CaptureRules,
    block: Block,
    pending: Seq<PendingSpec>,
    count: int,
)
    requires
        0 <= count <= layout::lines_of(block.bytes).len(),
        block.first + layout::lines_of(block.bytes).len() <= u64::MAX,
        block.base + block.bytes.len() <= u64::MAX,
    ensures
        state.with_block_lines(rules, block, pending, count) matches Ok(after) ==> (!after.overflow
            ==> {
            &&& forall|i: int|
                0 <= i < count && (covers(pending, block.first + i) || block.first + i
                    <= state.after_until) ==> #[trigger] after.lines.contains_key(
                    (block.first + i) as u64,
                )
            &&& forall|i: int|
                0 <= i < count && (covers(pending, block.first + i) || block.first + i
                    <= state.after_until) && !state.lines.contains_key((block.first + i) as u64)
                    ==> #[trigger] after.lines[(block.first + i) as u64] == (
                    (block.base + layout::lines_of(block.bytes)[i].start) as u64,
                    (block.base + layout::lines_of(block.bytes)[i].end) as u64,
                )
            &&& forall|number: u64| #[trigger]
                state.lines.contains_key(number) ==> after.lines.contains_key(number)
                    && after.lines[number] == state.lines[number]
            &&& forall|number: u64| #[trigger]
                after.lines.contains_key(number) ==> state.lines.contains_key(number)
                    || block.first <= number < block.first + count
            &&& after.after_until == state.after_until
        }),
    decreases count,
{
    if count > 0 {
        lines_of_kept_matches_are_kept(state, rules, block, pending, count - 1);
        let before = state.with_block_lines(rules, block, pending, count - 1);
        let result = state.with_block_lines(rules, block, pending, count);
        if let (Ok(earlier), Ok(after)) = (before, result) {
            if !after.overflow {
                assert(!earlier.overflow);
                lines_are_cut_at_line_feeds(block.bytes, count - 1);
                let line = layout::lines_of(block.bytes)[count - 1];
                let number = (block.first + count - 1) as u64;
                assert(layout::numbered(block.first, count - 1) == number);
                assert(capture::touched(pending, number) == covers(pending, block.first + count - 1));
                assert(!earlier.lines.contains_key(number) || state.lines.contains_key(number));
                let range = (
                    (block.base + line.start) as u64,
                    (block.base + line.end) as u64,
                );
                assert(after.lines == earlier.lines || after.lines == earlier.lines.insert(
                    number,
                    range,
                ) && !earlier.lines.contains_key(number));
                assert forall|i: int|
                    0 <= i < count && (covers(pending, block.first + i) || block.first + i
                        <= state.after_until) implies #[trigger] after.lines.contains_key(
                    (block.first + i) as u64,
                ) by {
                    if i < count - 1 {
                        assert(earlier.lines.contains_key((block.first + i) as u64));
                    }
                }
                assert forall|i: int|
                    0 <= i < count && (covers(pending, block.first + i) || block.first + i
                        <= state.after_until) && !state.lines.contains_key(
                        (block.first + i) as u64,
                    ) implies #[trigger] after.lines[(block.first + i) as u64] == (
                    (block.base + layout::lines_of(block.bytes)[i].start) as u64,
                    (block.base + layout::lines_of(block.bytes)[i].end) as u64,
                ) by {
                    if i < count - 1 {
                        assert(earlier.lines[(block.first + i) as u64] == (
                            (block.base + layout::lines_of(block.bytes)[i].start) as u64,
                            (block.base + layout::lines_of(block.bytes)[i].end) as u64,
                        ));
                    }
                }
            }
        }
    }
}

/// Whether one of the occurrences touches a line.
pub open spec fn covers(pending: Seq<PendingSpec>, line: int) -> bool {
    exists|i: int|
        0 <= i < pending.len() && (#[trigger] pending[i]).start_line <= line
            <= pending[i].end_line
}

/// Whether one more entry lies in the window: behind the entries to be left out, and no more than are
/// wanted.
pub open spec fn next_is_wanted(state: CaptureState, rules: CaptureRules) -> bool {
    &&& state.entries_seen >= rules.spec.skip_entries
    &&& rules.spec.max_selected_entries matches Some(most) ==> state.selected < most
}

/// A matching line is one entry, however many occurrences it has; it is selected where it lies in the
/// window.
pub proof fn a_matching_line_is_one_entry(state: CaptureState, rules: CaptureRules, line: u64)
    ensures
        state.line_chosen(rules, line) matches Ok(after) ==> {
            &&& after.last_line == Some(line)
            &&& state.last_line == Some(line) ==> after == state
            &&& state.last_line != Some(line) ==> {
                &&& after.entries_seen == state.entries_seen + 1
                &&& after.line_selected == next_is_wanted(state, rules)
                &&& after.line_selected ==> after.entries == state.entries.push(
                    ContentEntry::MatchingLine(line),
                ) && after.selected == state.selected + 1
                &&& !after.line_selected ==> after.entries == state.entries && after.selected
                    == state.selected
            }
            &&& after.occurrences == state.occurrences
            &&& after.occurrence_total == state.occurrence_total
        },
{
}

/// Where every occurrence is an entry, it is selected where it lies in the window.
pub proof fn an_occurrence_is_one_entry(state: CaptureState, rules: CaptureRules, last: u64)
    ensures
        state.occurrence_chosen(rules, last) matches Ok((after, selected)) ==> {
            &&& after.entries_seen == state.entries_seen + 1
            &&& selected == next_is_wanted(state, rules)
            &&& after.selected == state.selected + if selected {
                1int
            } else {
                0
            }
            &&& after.entries == state.entries
            &&& after.occurrences == state.occurrences
        },
{
}

/// An occurrence is kept behind the others of the line that it begins in, with its lines and spans,
/// and with the place of its text where matched texts are shown.
pub proof fn occurrences_are_kept_by_their_lines(
    state: CaptureState,
    rules: CaptureRules,
    pending: PendingSpec,
)
    requires
        !state.overflow,
    ensures
        ({
            let after = state.with_occurrence(rules, pending);
            let there = if state.occurrences.contains_key(pending.start_line) {
                state.occurrences[pending.start_line]
            } else {
                Seq::empty()
            };
            !after.overflow ==> {
                &&& after.occurrences.contains_key(pending.start_line)
                &&& after.occurrences[pending.start_line].len() == there.len() + 1
                &&& after.occurrences[pending.start_line].drop_last() == there
                &&& after.occurrences[pending.start_line].last().start_line == pending.start_line
                &&& after.occurrences[pending.start_line].last().end_line == pending.end_line
                &&& after.occurrences[pending.start_line].last().line_spans == pending.line_spans
                &&& after.occurrences[pending.start_line].last().matched_text
                    == if rules.spec.capture_match_text {
                    Some(pending.range)
                } else {
                    None
                }
                &&& forall|line: u64|
                    line != pending.start_line ==> (#[trigger] after.occurrences.contains_key(line)
                        <==> state.occurrences.contains_key(line))
                &&& forall|line: u64|
                    line != pending.start_line && state.occurrences.contains_key(line)
                        ==> #[trigger] after.occurrences[line] == state.occurrences[line]
                &&& rules.by_occurrence ==> after.entries == state.entries.push(
                    ContentEntry::Occurrence {
                        start_line: pending.start_line,
                        occurrence_index: there.len() as usize,
                    },
                )
                &&& !rules.by_occurrence ==> after.entries == state.entries
                &&& after.lines == state.lines
            }
        }),
{
    let after = state.with_occurrence(rules, pending);
    let there = if state.occurrences.contains_key(pending.start_line) {
        state.occurrences[pending.start_line]
    } else {
        Seq::empty()
    };
    if !after.overflow {
        assert(after.occurrences[pending.start_line].drop_last() =~= there);
    }
}

} // verus!
