//! The lines of a matched block, and where in them an occurrence lies.

use vstd::prelude::*;

verus! {

/// One line of a block of bytes.
#[derive(Clone, Copy, Debug, PartialEq, Eq, Structural)]
pub struct LogicalLine {
    pub content_start: usize,
    /// Where the text ends, before its terminator.
    pub content_end: usize,
    /// Where the terminator ends.
    pub full_end: usize,
}

/// The mathematical value of a [`LogicalLine`].
pub struct LineSpec {
    pub start: int,
    pub end: int,
    pub full_end: int,
}

impl View for LogicalLine {
    type V = LineSpec;

    open spec fn view(&self) -> LineSpec {
        LineSpec {
            start: self.content_start as int,
            end: self.content_end as int,
            full_end: self.full_end as int,
        }
    }
}

/// The lines as mathematical values.
pub open spec fn line_views(lines: Seq<LogicalLine>) -> Seq<LineSpec> {
    lines.map(|i: int, line: LogicalLine| line@)
}

/// Where the line that holds position `at` begins.
pub open spec fn line_start(bytes: Seq<u8>, at: int) -> int
    decreases at,
{
    if at <= 0 {
        0
    } else if bytes[at - 1] == 10 {
        at
    } else {
        line_start(bytes, at - 1)
    }
}

/// Where the text of a line ends whose line feed is at `at`: a carriage return belongs to the
/// terminator.
pub open spec fn text_end(bytes: Seq<u8>, start: int, at: int) -> int {
    if at > start && bytes[at - 1] == 13 {
        at - 1
    } else {
        at
    }
}

/// The lines that end with a line feed among the first `at` bytes.
pub open spec fn closed_lines(bytes: Seq<u8>, at: int) -> Seq<LineSpec>
    decreases at,
{
    if at <= 0 {
        Seq::empty()
    } else {
        let before = closed_lines(bytes, at - 1);
        if bytes[at - 1] == 10 {
            let start = line_start(bytes, at - 1);
            before.push(LineSpec { start, end: text_end(bytes, start, at - 1), full_end: at })
        } else {
            before
        }
    }
}

/// The lines of a block: those that end with a line feed and an unfinished last one. A block
/// has at least one line.
pub open spec fn lines_of(bytes: Seq<u8>) -> Seq<LineSpec> {
    let closed = closed_lines(bytes, bytes.len() as int);
    let start = line_start(bytes, bytes.len() as int);
    if start < bytes.len() || closed.len() == 0 {
        closed.push(LineSpec { start, end: bytes.len() as int, full_end: bytes.len() as int })
    } else {
        closed
    }
}

/// Whether a line holds an offset; the last line also holds the offset behind it.
pub open spec fn in_line(lines: Seq<LineSpec>, index: int, offset: int) -> bool {
    offset < lines[index].full_end || (index + 1 == lines.len() && offset
        <= lines[index].full_end)
}

/// The first line at or after `from` that holds an offset, or the last line.
pub open spec fn line_from(lines: Seq<LineSpec>, from: int, offset: int) -> int
    decreases lines.len() - from,
{
    if from + 1 >= lines.len() || in_line(lines, from, offset) {
        from
    } else {
        line_from(lines, from + 1, offset)
    }
}

/// The line that holds an offset.
pub open spec fn line_of(lines: Seq<LineSpec>, offset: int) -> int {
    line_from(lines, 0, offset)
}

/// The offset by which the last line of an occurrence is found: its last byte, or where an
/// empty one stands.
pub open spec fn last_offset(start: int, end: int) -> int {
    if end > start {
        end - 1
    } else {
        start
    }
}

/// Whether a byte continues a character.
pub open spec fn continues(byte: u8) -> bool {
    0x80 <= byte <= 0xbf
}

/// The number of characters that begin between two positions.
pub open spec fn characters(bytes: Seq<u8>, from: int, to: int) -> nat
    decreases to - from,
{
    if to <= from {
        0
    } else if continues(bytes[to - 1]) {
        characters(bytes, from, to - 1)
    } else {
        characters(bytes, from, to - 1) + 1
    }
}

/// The characters of one line that an occurrence covers.
#[derive(Clone, Copy, Debug, PartialEq, Eq, Structural)]
pub struct LineMatchSpan {
    pub line_number: u64,
    pub match_char_start: usize,
    pub match_char_len: usize,
}

/// The greater of two numbers.
pub open spec fn greater(left: int, right: int) -> int {
    if left > right {
        left
    } else {
        right
    }
}

/// The lesser of two numbers.
pub open spec fn lesser(left: int, right: int) -> int {
    if left < right {
        left
    } else {
        right
    }
}

/// Where the part of an occurrence in a line begins.
pub open spec fn overlap_start(line: LineSpec, start: int) -> int {
    lesser(greater(start, line.start), line.end)
}

/// Where the part of an occurrence in a line ends.
pub open spec fn overlap_end(line: LineSpec, start: int, end: int) -> int {
    greater(lesser(end, line.end), overlap_start(line, start))
}

/// The position that stands for an occurrence in a line. One that covers nothing of the line
/// stands at the line's begin where it starts there or before, else at its end.
pub open spec fn anchor(line: LineSpec, start: int, end: int) -> int {
    if overlap_start(line, start) < overlap_end(line, start, end) {
        overlap_start(line, start)
    } else if start <= line.start {
        line.start
    } else {
        line.end
    }
}

/// How far the characters of a line are counted after an occurrence. Counting never goes back.
pub open spec fn counted_to(line: LineSpec, counted: int, start: int, end: int) -> int {
    let from = greater(counted, anchor(line, start, end));
    if overlap_start(line, start) < overlap_end(line, start, end) {
        greater(from, overlap_end(line, start, end))
    } else {
        from
    }
}

/// The characters of a line that come before an occurrence and the number that it covers.
pub open spec fn covered(
    bytes: Seq<u8>,
    line: LineSpec,
    counted: int,
    start: int,
    end: int,
) -> (nat, nat) {
    let from = greater(counted, anchor(line, start, end));
    let before = characters(bytes, line.start, from);
    (
        before,
        if overlap_start(line, start) < overlap_end(line, start, end) {
            let to = counted_to(line, counted, start, end);
            (characters(bytes, line.start, to) - before) as nat
        } else {
            0
        },
    )
}

/// The number of a line of a block that begins with line `first`.
pub open spec fn numbered(first: u64, index: int) -> u64 {
    if first + index > u64::MAX {
        u64::MAX
    } else {
        (first + index) as u64
    }
}

/// The spans of an occurrence over the lines `from` to `to`.
pub open spec fn spans_of(
    bytes: Seq<u8>,
    first: u64,
    counted: Seq<int>,
    start: int,
    end: int,
    from: int,
    to: int,
) -> Seq<LineMatchSpan> {
    let lines = lines_of(bytes);
    Seq::new(
        (to - from + 1) as nat,
        |i: int|
            {
                let found = covered(bytes, lines[from + i], counted[from + i], start, end);
                LineMatchSpan {
                    line_number: numbered(first, from + i),
                    match_char_start: found.0 as usize,
                    match_char_len: found.1 as usize,
                }
            },
    )
}

/// How far the characters of every line are counted after an occurrence over the lines `from`
/// to `to`.
pub open spec fn counted_after(
    bytes: Seq<u8>,
    counted: Seq<int>,
    start: int,
    end: int,
    from: int,
    to: int,
) -> Seq<int> {
    let lines = lines_of(bytes);
    Seq::new(
        counted.len(),
        |i: int|
            if from <= i <= to {
                counted_to(lines[i], counted[i], start, end)
            } else {
                counted[i]
            },
    )
}

/// Nothing counted yet.
pub open spec fn uncounted(bytes: Seq<u8>) -> Seq<int> {
    lines_of(bytes).map(|i: int, line: LineSpec| line.start)
}

/// Whether the counts stay inside their lines.
pub open spec fn counts_fit(bytes: Seq<u8>, counted: Seq<int>) -> bool {
    let lines = lines_of(bytes);
    &&& counted.len() == lines.len()
    &&& forall|i: int|
        0 <= i < lines.len() ==> (#[trigger] lines[i]).start <= counted[i] <= lines[i].end
}

proof fn line_start_bounds(bytes: Seq<u8>, at: int)
    requires
        0 <= at <= bytes.len(),
    ensures
        0 <= line_start(bytes, at) <= at,
    decreases at,
{
    if at > 0 && bytes[at - 1] != 10 {
        line_start_bounds(bytes, at - 1);
    }
}

proof fn closed_line_bounds(bytes: Seq<u8>, at: int)
    requires
        0 <= at <= bytes.len(),
    ensures
        forall|i: int|
            0 <= i < closed_lines(bytes, at).len() ==> {
                let line = #[trigger] closed_lines(bytes, at)[i];
                0 <= line.start <= line.end < line.full_end <= at
            },
    decreases at,
{
    if at > 0 {
        closed_line_bounds(bytes, at - 1);
        line_start_bounds(bytes, at - 1);
        assert forall|i: int| 0 <= i < closed_lines(bytes, at).len() implies {
            let line = #[trigger] closed_lines(bytes, at)[i];
            0 <= line.start <= line.end < line.full_end <= at
        } by {
            if i < closed_lines(bytes, at - 1).len() {
                assert(closed_lines(bytes, at)[i] == closed_lines(bytes, at - 1)[i]);
            }
        }
    }
}

/// Every line lies inside the block, its text before its terminator.
pub proof fn lines_lie_in_block(bytes: Seq<u8>)
    ensures
        lines_of(bytes).len() >= 1,
        forall|i: int|
            0 <= i < lines_of(bytes).len() ==> {
                let line = #[trigger] lines_of(bytes)[i];
                0 <= line.start <= line.end <= line.full_end <= bytes.len()
            },
{
    closed_line_bounds(bytes, bytes.len() as int);
    line_start_bounds(bytes, bytes.len() as int);
}

proof fn line_from_bounds(lines: Seq<LineSpec>, from: int, offset: int)
    requires
        0 <= from < lines.len(),
    ensures
        from <= line_from(lines, from, offset) < lines.len(),
    decreases lines.len() - from,
{
    if from + 1 < lines.len() && !in_line(lines, from, offset) {
        line_from_bounds(lines, from + 1, offset);
    }
}

/// A search that starts at a line which is not past the wanted one finds the same line.
proof fn line_from_later(lines: Seq<LineSpec>, from: int, later: int, offset: int)
    requires
        0 <= from <= later <= line_from(lines, from, offset),
        from < lines.len(),
    ensures
        line_from(lines, later, offset) == line_from(lines, from, offset),
    decreases lines.len() - from,
{
    if later > from {
        line_from_later(lines, from + 1, later, offset);
    }
}

/// A later offset lies in the same line or in a later one.
proof fn later_offset_later_line(lines: Seq<LineSpec>, from: int, offset: int, later: int)
    requires
        0 <= from < lines.len(),
        offset <= later,
    ensures
        line_from(lines, from, offset) <= line_from(lines, from, later),
    decreases lines.len() - from,
{
    if from + 1 < lines.len() {
        if in_line(lines, from, offset) {
            line_from_bounds(lines, from, later);
        } else {
            later_offset_later_line(lines, from + 1, offset, later);
        }
    }
}

/// Of two occurrences in order, the later one begins and ends in no earlier line.
pub proof fn later_occurrence_later_lines(
    bytes: Seq<u8>,
    start: int,
    end: int,
    next_start: int,
    next_end: int,
)
    requires
        start <= end <= next_start <= next_end,
    ensures
        line_of(lines_of(bytes), start) <= line_of(lines_of(bytes), next_start),
        line_of(lines_of(bytes), last_offset(start, end)) <= line_of(
            lines_of(bytes),
            last_offset(next_start, next_end),
        ),
        line_of(lines_of(bytes), start) <= line_of(lines_of(bytes), last_offset(start, end)),
{
    lines_lie_in_block(bytes);
    later_offset_later_line(lines_of(bytes), 0, start, next_start);
    later_offset_later_line(
        lines_of(bytes),
        0,
        last_offset(start, end),
        last_offset(next_start, next_end),
    );
    later_offset_later_line(lines_of(bytes), 0, start, last_offset(start, end));
}

/// An occurrence ends in no earlier line than it begins in.
pub proof fn occurrence_lines_rise(bytes: Seq<u8>, start: int, end: int)
    ensures
        line_of(lines_of(bytes), start) <= line_of(lines_of(bytes), last_offset(start, end)),
{
    lines_lie_in_block(bytes);
    later_offset_later_line(lines_of(bytes), 0, start, last_offset(start, end));
}

/// Every offset of a block has a line.
pub proof fn line_of_bounds(bytes: Seq<u8>, offset: int)
    ensures
        0 <= line_of(lines_of(bytes), offset) < lines_of(bytes).len(),
{
    lines_lie_in_block(bytes);
    line_from_bounds(lines_of(bytes), 0, offset);
}

proof fn characters_grow(bytes: Seq<u8>, from: int, to: int, further: int)
    requires
        from <= to <= further,
    ensures
        characters(bytes, from, to) <= characters(bytes, from, further),
    decreases further - to,
{
    if to < further {
        characters_grow(bytes, from, to, further - 1);
    }
}

proof fn characters_bounded(bytes: Seq<u8>, from: int, to: int)
    requires
        from <= to,
    ensures
        characters(bytes, from, to) <= to - from,
    decreases to - from,
{
    if from < to {
        characters_bounded(bytes, from, to - 1);
    }
}

/// How far the characters of one line are counted.
#[derive(Clone, Copy, Debug)]
struct CharCursor {
    byte_offset: usize,
    char_offset: usize,
}

/// Where the occurrences of a block are looked for next.
#[derive(Clone, Copy, Debug)]
pub struct OccurrenceCursor {
    pub start: usize,
    pub end: usize,
}

impl OccurrenceCursor {
    /// At the first line.
    pub fn new() -> (cursor: Self)
        ensures
            cursor.start == 0,
            cursor.end == 0,
    {
        OccurrenceCursor { start: 0, end: 0 }
    }
}

/// The lines of one matched block.
pub struct LineLayout<'a> {
    bytes: &'a [u8],
    first_line_number: u64,
    lines: Vec<LogicalLine>,
    char_cursors: Vec<CharCursor>,
}

impl<'a> LineLayout<'a> {
    /// The block.
    pub closed spec fn bytes(&self) -> Seq<u8> {
        self.bytes@
    }

    /// The number of the first line.
    pub closed spec fn first(&self) -> u64 {
        self.first_line_number
    }

    /// How far the characters of every line are counted.
    pub closed spec fn counted(&self) -> Seq<int> {
        self.char_cursors@.map(|i: int, cursor: CharCursor| cursor.byte_offset as int)
    }

    /// Whether the lines and the counts are those of the block.
    pub closed spec fn wf(&self) -> bool {
        &&& line_views(self.lines@) == lines_of(self.bytes@)
        &&& self.char_cursors@.len() == self.lines@.len()
        &&& counts_fit(self.bytes@, self.counted())
        &&& forall|i: int|
            0 <= i < self.char_cursors@.len() ==> (#[trigger] self.char_cursors@[i]).char_offset
                == characters(
                self.bytes@,
                self.lines@[i].content_start as int,
                self.char_cursors@[i].byte_offset as int,
            )
    }

    /// Divides a block into its lines.
    pub fn new(bytes: &'a [u8], first_line_number: u64) -> (layout: Self)
        ensures
            layout.wf(),
            layout.bytes() == bytes@,
            layout.first() == first_line_number,
            layout.counted() == uncounted(bytes@),
    {
        let mut lines: Vec<LogicalLine> = Vec::new();
        let mut start: usize = 0;
        let mut index: usize = 0;
        assert(line_views(lines@) =~= closed_lines(bytes@, 0));
        while index < bytes.len()
            invariant
                index <= bytes.len(),
                start <= index,
                start == line_start(bytes@, index as int),
                line_views(lines@) == closed_lines(bytes@, index as int),
            decreases bytes.len() - index,
        {
            if bytes[index] == 10 {
                let content_end: usize = if index > start && bytes[index - 1] == 13 {
                    index - 1
                } else {
                    index
                };
                let ghost before = lines@;
                let line = LogicalLine { content_start: start, content_end, full_end: index + 1 };
                lines.push(line);
                start = index + 1;
                assert(line_views(lines@) =~= line_views(before).push(line@));
            }
            index += 1;
        }
        let ghost before = lines@;
        if start < bytes.len() || lines.len() == 0 {
            let line = LogicalLine {
                content_start: start,
                content_end: bytes.len(),
                full_end: bytes.len(),
            };
            lines.push(line);
            assert(line_views(lines@) =~= line_views(before).push(line@));
        }
        assert(line_views(lines@) =~= lines_of(bytes@));
        let mut char_cursors: Vec<CharCursor> = Vec::new();
        let mut at: usize = 0;
        while at < lines.len()
            invariant
                at <= lines.len(),
                char_cursors@.len() == at,
                forall|i: int|
                    0 <= i < at ==> (#[trigger] char_cursors@[i]).byte_offset
                        == lines@[i].content_start && char_cursors@[i].char_offset == 0,
            decreases lines.len() - at,
        {
            char_cursors.push(CharCursor { byte_offset: lines[at].content_start, char_offset: 0 });
            at += 1;
        }
        let layout = LineLayout { bytes, first_line_number, lines, char_cursors };
        proof {
            lines_lie_in_block(bytes@);
            assert forall|i: int| 0 <= i < lines_of(bytes@).len() implies {
                let line = #[trigger] lines_of(bytes@)[i];
                line.start == layout.lines@[i].content_start
            } by {
                assert(line_views(layout.lines@)[i] == layout.lines@[i]@);
            }
            assert(layout.counted() =~= uncounted(bytes@));
        }
        layout
    }

    /// The number of lines.
    pub fn line_count(&self) -> (count: usize)
        requires
            self.wf(),
        ensures
            count == lines_of(self.bytes()).len(),
    {
        assert(line_views(self.lines@).len() == self.lines@.len());
        self.lines.len()
    }

    /// A line.
    pub fn line(&self, index: usize) -> (line: LogicalLine)
        requires
            self.wf(),
            index < lines_of(self.bytes()).len(),
        ensures
            line@ == lines_of(self.bytes())[index as int],
    {
        assert(line_views(self.lines@)[index as int] == self.lines@[index as int]@);
        self.lines[index]
    }

    fn holds(&self, index: usize, offset: usize) -> (held: bool)
        requires
            self.wf(),
            index < lines_of(self.bytes()).len(),
        ensures
            held == in_line(lines_of(self.bytes()), index as int, offset as int),
    {
        let line = self.line(index);
        let count = self.line_count();
        offset < line.full_end || (index + 1 == count && offset <= line.full_end)
    }

    fn advance(&self, from: usize, offset: usize) -> (index: usize)
        requires
            self.wf(),
            from < lines_of(self.bytes()).len(),
        ensures
            index == line_from(lines_of(self.bytes()), from as int, offset as int),
            from <= index < lines_of(self.bytes()).len(),
    {
        let count = self.line_count();
        let mut index: usize = from;
        while index + 1 < count && !self.holds(index, offset)
            invariant
                self.wf(),
                count == lines_of(self.bytes()).len(),
                from <= index < count,
                line_from(lines_of(self.bytes()), from as int, offset as int) == line_from(
                    lines_of(self.bytes()),
                    index as int,
                    offset as int,
                ),
            decreases count - index,
        {
            index += 1;
        }
        index
    }

    /// The lines in which an occurrence begins and ends. The cursor spares looking again at
    /// lines that lie before.
    pub fn locate(&self, start: usize, end: usize, cursor: &mut OccurrenceCursor) -> (indexes: (
        usize,
        usize,
    ))
        requires
            self.wf(),
            start <= end,
            old(cursor).start <= line_of(lines_of(self.bytes()), start as int),
            old(cursor).end <= line_of(
                lines_of(self.bytes()),
                last_offset(start as int, end as int),
            ),
        ensures
            indexes.0 == line_of(lines_of(self.bytes()), start as int),
            indexes.1 == line_of(
                lines_of(self.bytes()),
                last_offset(start as int, end as int),
            ),
            indexes.0 <= indexes.1 < lines_of(self.bytes()).len(),
            final(cursor).start == indexes.0,
            final(cursor).end == indexes.1,
    {
        let ghost lines = lines_of(self.bytes());
        let last: usize = if end > start {
            end - 1
        } else {
            start
        };
        proof {
            line_of_bounds(self.bytes(), start as int);
            line_of_bounds(self.bytes(), last as int);
            line_from_later(lines, 0, cursor.start as int, start as int);
            later_offset_later_line(lines, 0, start as int, last as int);
        }
        cursor.start = self.advance(cursor.start, start);
        if cursor.end < cursor.start {
            cursor.end = cursor.start;
        }
        proof {
            line_from_later(lines, 0, cursor.end as int, last as int);
        }
        cursor.end = self.advance(cursor.end, last);
        (cursor.start, cursor.end)
    }

    /// Counts the characters of a line up to a position, or as far as they were counted before.
    fn char_offset(&mut self, index: usize, target: usize) -> (count: usize)
        requires
            old(self).wf(),
            index < lines_of(old(self).bytes()).len(),
            lines_of(old(self).bytes())[index as int].start <= target <= lines_of(
                old(self).bytes(),
            )[index as int].end,
        ensures
            final(self).wf(),
            final(self).bytes() == old(self).bytes(),
            final(self).first() == old(self).first(),
            final(self).counted() == old(self).counted().update(
                index as int,
                greater(old(self).counted()[index as int], target as int),
            ),
            count == characters(
                old(self).bytes(),
                lines_of(old(self).bytes())[index as int].start,
                greater(old(self).counted()[index as int], target as int),
            ),
    {
        let ghost before = *self;
        proof {
            lines_lie_in_block(self.bytes@);
            assert(line_views(self.lines@)[index as int] == self.lines@[index as int]@);
            assert(self.counted()[index as int] == self.char_cursors@[index as int].byte_offset);
        }
        let ghost line = lines_of(self.bytes())[index as int];
        let cursor = self.char_cursors[index];
        if target > cursor.byte_offset {
            let mut count: usize = cursor.char_offset;
            let mut at: usize = cursor.byte_offset;
            while at < target
                invariant
                    *self == before,
                    line.start <= cursor.byte_offset <= at <= target,
                    target <= self.bytes@.len(),
                    count == characters(self.bytes@, line.start, at as int),
                    0 <= line.start,
                decreases target - at,
            {
                proof {
                    characters_bounded(self.bytes@, line.start, at as int);
                }
                let byte = self.bytes[at];
                if !(0x80 <= byte && byte <= 0xbf) {
                    count += 1;
                }
                at += 1;
            }
            self.char_cursors.set(index, CharCursor { byte_offset: target, char_offset: count });
            proof {
                assert(self.counted() =~= before.counted().update(index as int, target as int));
                assert forall|i: int| 0 <= i < self.char_cursors@.len() implies (
                #[trigger] self.char_cursors@[i]).char_offset == characters(
                    self.bytes@,
                    self.lines@[i].content_start as int,
                    self.char_cursors@[i].byte_offset as int,
                ) by {
                    if i != index {
                        assert(self.char_cursors@[i] == before.char_cursors@[i]);
                    }
                }
            }
            count
        } else {
            assert(self.counted() =~= before.counted().update(
                index as int,
                greater(before.counted()[index as int], target as int),
            ));
            cursor.char_offset
        }
    }

    /// The spans of an occurrence over the lines from one to another.
    pub fn line_spans(&mut self, start: usize, end: usize, from: usize, to: usize) -> (spans: Vec<
        LineMatchSpan,
    >)
        requires
            old(self).wf(),
            start <= end,
            from <= to < lines_of(old(self).bytes()).len(),
        ensures
            final(self).wf(),
            final(self).bytes() == old(self).bytes(),
            final(self).first() == old(self).first(),
            spans@ == spans_of(
                old(self).bytes(),
                old(self).first(),
                old(self).counted(),
                start as int,
                end as int,
                from as int,
                to as int,
            ),
            final(self).counted() == counted_after(
                old(self).bytes(),
                old(self).counted(),
                start as int,
                end as int,
                from as int,
                to as int,
            ),
    {
        let ghost bytes = self.bytes();
        let ghost counted = self.counted();
        let ghost first = self.first();
        let ghost lines = lines_of(bytes);
        let count = self.line_count();
        let size = self.bytes.len();
        let mut spans: Vec<LineMatchSpan> = Vec::new();
        let mut index: usize = from;
        proof {
            lines_lie_in_block(bytes);
            assert(self.counted() =~= counted_after(
                bytes,
                counted,
                start as int,
                end as int,
                from as int,
                from - 1,
            ));
        }
        while index <= to
            invariant
                self.wf(),
                self.bytes() == bytes,
                self.first() == first,
                lines == lines_of(bytes),
                start <= end,
                from <= index <= to + 1,
                to < lines.len(),
                lines.len() == count,
                counts_fit(bytes, counted),
                forall|i: int|
                    0 <= i < lines.len() ==> 0 <= (#[trigger] lines[i]).start <= lines[i].end
                        <= bytes.len(),
                bytes.len() == size,
                self.counted() == counted_after(
                    bytes,
                    counted,
                    start as int,
                    end as int,
                    from as int,
                    index - 1,
                ),
                spans@ == spans_of(
                    bytes,
                    first,
                    counted,
                    start as int,
                    end as int,
                    from as int,
                    index - 1,
                ),
            decreases to + 1 - index,
        {
            let line = self.line(index);
            let mut overlap_start: usize = start;
            if overlap_start < line.content_start {
                overlap_start = line.content_start;
            }
            if overlap_start > line.content_end {
                overlap_start = line.content_end;
            }
            let mut overlap_end: usize = end;
            if overlap_end > line.content_end {
                overlap_end = line.content_end;
            }
            if overlap_end < overlap_start {
                overlap_end = overlap_start;
            }
            let anchor: usize = if overlap_start < overlap_end {
                overlap_start
            } else if start <= line.content_start {
                line.content_start
            } else {
                line.content_end
            };
            let ghost earlier = self.counted();
            proof {
                assert(lines[index as int] == line@);
                assert(earlier[index as int] == counted[index as int]);
                characters_bounded(bytes, line.content_start as int, line.content_end as int);
            }
            let match_char_start = self.char_offset(index, anchor);
            let ghost middle = self.counted();
            let match_char_len: usize = if overlap_start < overlap_end {
                let reached = self.char_offset(index, overlap_end);
                proof {
                    characters_grow(
                        bytes,
                        line.content_start as int,
                        middle[index as int],
                        greater(middle[index as int], overlap_end as int),
                    );
                }
                reached - match_char_start
            } else {
                0
            };
            let number = self.first_line_number.saturating_add(index as u64);
            let ghost sofar = spans@;
            let span = LineMatchSpan { line_number: number, match_char_start, match_char_len };
            spans.push(span);
            proof {
                assert(spans@ =~= spans_of(
                    bytes,
                    first,
                    counted,
                    start as int,
                    end as int,
                    from as int,
                    index as int,
                ));
                assert(self.counted() =~= counted_after(
                    bytes,
                    counted,
                    start as int,
                    end as int,
                    from as int,
                    index as int,
                ));
            }
            index += 1;
        }
        spans
    }
}

/// Sets of line numbers, as ascending ranges.
pub struct LineIntervals {
    ranges: Vec<(u64, u64)>,
}

/// Whether a range ends before the next one begins, with a gap between them.
pub open spec fn apart(ranges: Seq<(u64, u64)>) -> bool {
    &&& forall|i: int| 0 <= i < ranges.len() ==> (#[trigger] ranges[i]).0 <= ranges[i].1
    &&& forall|i: int, j: int|
        0 <= i < j < ranges.len() ==> (#[trigger] ranges[i]).1 < (#[trigger] ranges[j]).0
}

/// Whether one of the ranges holds a line.
pub open spec fn holds_line(ranges: Seq<(u64, u64)>, line: u64) -> bool {
    exists|i: int| 0 <= i < ranges.len() && (#[trigger] ranges[i]).0 <= line <= ranges[i].1
}

impl LineIntervals {
    /// The ranges.
    pub closed spec fn ranges(&self) -> Seq<(u64, u64)> {
        self.ranges@
    }

    /// Whether the ranges ascend without touching.
    pub open spec fn wf(&self) -> bool {
        apart(self.ranges())
    }

    /// Whether the set holds a line.
    pub open spec fn holds(&self, line: u64) -> bool {
        holds_line(self.ranges(), line)
    }

    /// The empty set.
    pub fn new() -> (intervals: Self)
        ensures
            intervals.wf(),
            intervals.ranges() == Seq::<(u64, u64)>::empty(),
            forall|line: u64| !intervals.holds(line),
    {
        LineIntervals { ranges: Vec::new() }
    }

    /// Adds the lines from `start` to `end`; ranges are added in the order of their begin.
    pub fn insert(&mut self, start: u64, end: u64)
        requires
            old(self).wf(),
            start <= end,
            forall|i: int|
                0 <= i < old(self).ranges().len() ==> (#[trigger] old(self).ranges()[i]).0
                    <= start,
        ensures
            final(self).wf(),
            forall|line: u64| #[trigger] final(self).holds(line) <==> old(self).holds(line) || (start <= line
                <= end),
            forall|i: int|
                0 <= i < final(self).ranges().len() ==> (#[trigger] final(self).ranges()[i]).0
                    <= start,
    {
        let count = self.ranges.len();
        if count > 0 && start <= self.ranges[count - 1].1.saturating_add(1) {
            let last = self.ranges[count - 1];
            let reached = if last.1 < end {
                end
            } else {
                last.1
            };
            let ghost before = self.ranges@;
            self.ranges.set(count - 1, (last.0, reached));
            proof {
                assert forall|line: u64| #[trigger] holds_line(self.ranges@, line) <==> holds_line(
                    before,
                    line,
                ) || (start <= line <= end) by {
                    if holds_line(before, line) {
                        let i = choose|i: int|
                            0 <= i < before.len() && (#[trigger] before[i]).0 <= line
                                <= before[i].1;
                        assert(self.ranges@[i].0 <= line <= self.ranges@[i].1);
                    }
                    if start <= line <= end {
                        assert(self.ranges@[count - 1].0 <= line <= self.ranges@[count - 1].1);
                    }
                    if holds_line(self.ranges@, line) && !(start <= line <= end) {
                        let i = choose|i: int|
                            0 <= i < self.ranges@.len() && (#[trigger] self.ranges@[i]).0 <= line
                                <= self.ranges@[i].1;
                        assert(before[i].0 <= line <= before[i].1);
                    }
                }
            }
        } else {
            let ghost before = self.ranges@;
            self.ranges.push((start, end));
            proof {
                assert forall|line: u64| #[trigger] holds_line(self.ranges@, line) <==> holds_line(
                    before,
                    line,
                ) || (start <= line <= end) by {
                    if holds_line(before, line) {
                        let i = choose|i: int|
                            0 <= i < before.len() && (#[trigger] before[i]).0 <= line
                                <= before[i].1;
                        assert(self.ranges@[i].0 <= line <= self.ranges@[i].1);
                    }
                    if start <= line <= end {
                        assert(self.ranges@[count as int].0 <= line <= self.ranges@[count as int].1);
                    }
                    if holds_line(self.ranges@, line) && !(start <= line <= end) {
                        let i = choose|i: int|
                            0 <= i < self.ranges@.len() && (#[trigger] self.ranges@[i]).0 <= line
                                <= self.ranges@[i].1;
                        assert(before[i].0 <= line <= before[i].1);
                    }
                }
            }
        }
    }

    /// Whether the set holds a line. The cursor passes the ranges that end before it, so lines
    /// are asked for in ascending order.
    pub fn contains(&self, line: u64, cursor: &mut usize) -> (held: bool)
        requires
            self.wf(),
            forall|i: int|
                0 <= i < *old(cursor) && i < self.ranges().len() ==> (#[trigger] self.ranges()[i]).1
                    < line,
        ensures
            held == self.holds(line),
            forall|i: int|
                0 <= i < *final(cursor) && i < self.ranges().len() ==> (
                #[trigger] self.ranges()[i]).1 < line,
    {
        while *cursor < self.ranges.len() && self.ranges[*cursor].1 < line
            invariant
                self.wf(),
                forall|i: int|
                    0 <= i < *cursor && i < self.ranges@.len() ==> (#[trigger] self.ranges@[i]).1
                        < line,
            decreases self.ranges.len() - *cursor,
        {
            *cursor += 1;
        }
        if *cursor < self.ranges.len() {
            let range = self.ranges[*cursor];
            proof {
                if self.holds(line) {
                    let i = choose|i: int|
                        0 <= i < self.ranges@.len() && (#[trigger] self.ranges@[i]).0 <= line
                            <= self.ranges@[i].1;
                    assert(i >= *cursor);
                    assert(i == *cursor);
                }
            }
            range.0 <= line && line <= range.1
        } else {
            false
        }
    }
}

/// The text of a line without its terminator.
pub open spec fn without_terminator(bytes: Seq<u8>) -> nat {
    let fed = if bytes.len() > 0 && bytes.last() == 10 {
        (bytes.len() - 1) as nat
    } else {
        bytes.len()
    };
    if fed > 0 && bytes[fed - 1] == 13 {
        (fed - 1) as nat
    } else {
        fed
    }
}

/// The length of a line without its terminator.
pub fn strip_line_terminator(bytes: &[u8]) -> (len: usize)
    ensures
        len == without_terminator(bytes@),
        len <= bytes.len(),
{
    let mut len = bytes.len();
    if len > 0 && bytes[len - 1] == 10 {
        len -= 1;
    }
    if len > 0 && bytes[len - 1] == 13 {
        len -= 1;
    }
    len
}

/// Whether an occurrence is only the empty match behind the last line feed of a block.
pub open spec fn synthetic(bytes: Seq<u8>, start: int, end: int) -> bool {
    start == end && end == bytes.len() && bytes.len() > 0 && bytes.last() == 10
}

/// Whether an occurrence is only the empty match behind the last line feed of a block.
pub fn is_synthetic_trailing_empty(bytes: &[u8], start: usize, end: usize) -> (found: bool)
    ensures
        found == synthetic(bytes@, start as int, end as int),
{
    start == end && end == bytes.len() && bytes.len() > 0 && bytes[bytes.len() - 1] == 10
}

/// A range of a block as a range of the whole text; `None` past the last number.
pub open spec fn absolute(base: u64, start: int, end: int) -> Option<(u64, u64)> {
    if start <= end && base + end <= u64::MAX {
        Some(((base + start) as u64, (base + end) as u64))
    } else {
        None
    }
}

/// A range of a block as a range of the whole text.
pub fn absolute_range(base: u64, start: usize, end: usize) -> (range: Option<(u64, u64)>)
    ensures
        range == absolute(base, start as int, end as int),
{
    if start > end {
        return None;
    }
    match (base.checked_add(start as u64), base.checked_add(end as u64)) {
        (Some(from), Some(to)) => Some((from, to)),
        _ => None,
    }
}

} // verus!
