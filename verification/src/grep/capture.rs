//! Capturing matches with the lines around them: which entries are kept, which lines belong to
//! them, and how much of both fits.

use crate::grep::layout;
use crate::grep::layout::{
    absolute_range, is_synthetic_trailing_empty, strip_line_terminator, LineIntervals, LineLayout,
    LineMatchSpan, OccurrenceCursor,
};
use crate::grep::matcher;
use crate::grep::matcher::{ContextKind, GrepMatcher};
use crate::grep::plan;
use crate::grep::plan::ContentSpec;
use crate::grep::sink;
use crate::grep::sink::{SinkControl, SinkFault, SinkInterrupt};
use crate::operation::WorkCheckpoint;
use std::collections::{BTreeMap, VecDeque};
use vstd::prelude::*;

verus! {

/// What one kept occurrence takes, apart from its text and its spans.
pub const OCCURRENCE_SIZE_BYTES: usize = 88;

/// What one span of a kept occurrence takes.
pub const SPAN_SIZE_BYTES: usize = 24;

/// One entry of a page.
#[derive(Clone, Copy, Debug, PartialEq, Eq, Structural)]
pub enum ContentEntry {
    /// A line with at least one occurrence.
    MatchingLine(u64),
    /// One of the occurrences that begin in a line.
    Occurrence { start_line: u64, occurrence_index: usize },
}

/// A kept occurrence.
#[derive(Debug)]
pub struct Occurrence {
    /// Where the matched text lies, when it is shown.
    pub matched_text: Option<(u64, u64)>,
    pub start_line: u64,
    pub end_line: u64,
    pub line_spans: Vec<LineMatchSpan>,
}

/// The mathematical value of an [`Occurrence`].
pub struct OccurrenceSpec {
    pub matched_text: Option<(u64, u64)>,
    pub start_line: u64,
    pub end_line: u64,
    pub line_spans: Seq<LineMatchSpan>,
}

impl View for Occurrence {
    type V = OccurrenceSpec;

    open spec fn view(&self) -> OccurrenceSpec {
        OccurrenceSpec {
            matched_text: self.matched_text,
            start_line: self.start_line,
            end_line: self.end_line,
            line_spans: self.line_spans@,
        }
    }
}

/// The occurrences as mathematical values.
pub open spec fn occurrence_views(occurrences: Seq<Occurrence>) -> Seq<OccurrenceSpec> {
    occurrences.map(|i: int, occurrence: Occurrence| occurrence@)
}

/// The occurrences by the line in which they begin, as mathematical values.
pub open spec fn occurrences_by_line(map: Map<u64, Vec<Occurrence>>) -> Map<
    u64,
    Seq<OccurrenceSpec>,
> {
    map.map_values(|occurrences: Vec<Occurrence>| occurrence_views(occurrences@))
}

/// A block that a searcher reports: where in the text it lies, and the number of its first line.
pub struct Block {
    pub bytes: Seq<u8>,
    pub base: u64,
    pub first: u64,
}

/// What is kept, and in which units.
#[derive(Clone, Copy, Debug, PartialEq, Eq, Structural)]
pub struct CaptureRules {
    /// Every occurrence is an entry, not every matching line.
    pub by_occurrence: bool,
    pub spec: ContentSpec,
}

/// An occurrence that is about to be kept.
pub struct PendingSpec {
    pub range: (u64, u64),
    pub start_line: u64,
    pub end_line: u64,
    pub line_spans: Seq<LineMatchSpan>,
}

/// What is known of a block while its occurrences are looked at.
pub struct BlockState {
    /// Whether the block was divided into lines.
    pub laid_out: bool,
    /// How far the characters of its lines are counted.
    pub counted: Seq<int>,
    /// The occurrences to keep.
    pub pending: Seq<PendingSpec>,
}

/// What was captured so far.
pub struct CaptureState {
    pub control: SinkControl,
    pub lines: Map<u64, (u64, u64)>,
    pub occurrences: Map<u64, Seq<OccurrenceSpec>>,
    pub entries: Seq<ContentEntry>,
    pub occurrence_total: usize,
    pub entries_seen: usize,
    pub selected: usize,
    pub last_line: Option<u64>,
    pub line_selected: bool,
    /// The lines that may turn out to come before a match.
    pub recent: Seq<(u64, (u64, u64))>,
    pub recent_bytes: usize,
    pub stored_bytes: usize,
    /// The last line that still follows a match.
    pub after_until: u64,
    pub overflow: bool,
}

/// The length of a range.
pub open spec fn range_len(range: (u64, u64)) -> usize {
    if range.1 <= range.0 {
        0
    } else if range.1 - range.0 > usize::MAX {
        usize::MAX
    } else {
        (range.1 - range.0) as usize
    }
}

pub fn len_of_range(range: (u64, u64)) -> (len: usize)
    ensures
        len == range_len(range),
{
    if range.1 <= range.0 {
        0
    } else if range.1 - range.0 > usize::MAX as u64 {
        usize::MAX
    } else {
        (range.1 - range.0) as usize
    }
}

/// A line number, some lines on.
pub open spec fn further(line: u64, lines: usize) -> u64 {
    if line + lines > u64::MAX {
        u64::MAX
    } else {
        (line + lines) as u64
    }
}

/// A difference that stops at zero.
pub open spec fn less(left: usize, right: usize) -> usize {
    if left < right {
        0
    } else {
        (left - right) as usize
    }
}

/// Lines that came before a match join the captured ones.
pub open spec fn committed(
    lines: Map<u64, (u64, u64)>,
    stored: usize,
    recent: Seq<(u64, (u64, u64))>,
) -> (Map<u64, (u64, u64)>, usize)
    decreases recent.len(),
{
    if recent.len() == 0 {
        (lines, stored)
    } else {
        let before = committed(lines, stored, recent.drop_last());
        let (number, range) = recent.last();
        if before.0.contains_key(number) {
            before
        } else {
            (before.0.insert(number, range), plan::sat(before.1, range_len(range)))
        }
    }
}

/// Whether one of the occurrences to keep touches a line.
pub open spec fn touched(pending: Seq<PendingSpec>, line: u64) -> bool {
    exists|i: int|
        0 <= i < pending.len() && (#[trigger] pending[i]).start_line <= line
            <= pending[i].end_line
}

/// What keeping an occurrence takes, apart from its text.
pub open spec fn metadata_len(spans: nat) -> usize {
    if OCCURRENCE_SIZE_BYTES + spans * SPAN_SIZE_BYTES > usize::MAX {
        usize::MAX
    } else {
        (OCCURRENCE_SIZE_BYTES + spans * SPAN_SIZE_BYTES) as usize
    }
}

impl CaptureState {
    /// Nothing captured yet.
    pub open spec fn fresh() -> Self {
        CaptureState {
            control: SinkControl::fresh(),
            lines: Map::empty(),
            occurrences: Map::empty(),
            entries: Seq::empty(),
            occurrence_total: 0,
            entries_seen: 0,
            selected: 0,
            last_line: None,
            line_selected: false,
            recent: Seq::empty(),
            recent_bytes: 0,
            stored_bytes: 0,
            after_until: 0,
            overflow: false,
        }
    }

    /// Whether so many more bytes fit.
    pub open spec fn fits(self, rules: CaptureRules, more: usize) -> bool {
        plan::sat(plan::sat(self.stored_bytes, self.recent_bytes), more)
            <= rules.spec.capture_heap_limit_bytes
    }

    /// Whether as many entries are selected as asked for.
    pub open spec fn full(self, rules: CaptureRules) -> bool {
        match rules.spec.max_selected_entries {
            Some(limit) => self.selected >= limit,
            None => false,
        }
    }

    /// Too much to capture.
    pub open spec fn overflowed(self) -> Self {
        CaptureState { overflow: true, ..self }
    }

    /// A line is captured, once.
    pub open spec fn with_line(self, rules: CaptureRules, number: u64, range: (u64, u64)) -> Self {
        if self.lines.contains_key(number) {
            self
        } else if !self.fits(rules, range_len(range)) {
            self.overflowed()
        } else {
            CaptureState {
                stored_bytes: plan::sat(self.stored_bytes, range_len(range)),
                lines: self.lines.insert(number, range),
                ..self
            }
        }
    }

    /// A line may turn out to come before a match; only as many as asked for are remembered.
    pub open spec fn with_recent(
        self,
        rules: CaptureRules,
        number: u64,
        range: (u64, u64),
    ) -> Self {
        let before = rules.spec.before_context;
        if before == 0 || (self.recent.len() > 0 && self.recent.last().0 == number) {
            self
        } else {
            let trimmed = if self.recent.len() >= before {
                CaptureState {
                    recent: self.recent.drop_first(),
                    recent_bytes: less(self.recent_bytes, range_len(self.recent[0].1)),
                    ..self
                }
            } else {
                self
            };
            if !trimmed.fits(rules, range_len(range)) {
                trimmed.overflowed()
            } else {
                CaptureState {
                    recent: trimmed.recent.push((number, range)),
                    recent_bytes: plan::sat(trimmed.recent_bytes, range_len(range)),
                    ..trimmed
                }
            }
        }
    }

    /// The remembered lines come before a match.
    pub open spec fn with_committed(self) -> Self {
        let (lines, stored) = committed(self.lines, self.stored_bytes, self.recent);
        CaptureState {
            lines,
            stored_bytes: stored,
            recent: Seq::empty(),
            recent_bytes: 0,
            ..self
        }
    }

    /// Whether the entry that was seen last lies in the window.
    pub open spec fn in_window(self, rules: CaptureRules) -> bool {
        self.entries_seen > rules.spec.skip_entries && !self.full(rules)
    }

    /// One more entry seen.
    pub open spec fn seen(self) -> Result<Self, SinkFault> {
        if self.entries_seen == usize::MAX {
            Err(SinkFault::CountOverflow)
        } else {
            Ok(CaptureState { entries_seen: (self.entries_seen + 1) as usize, ..self })
        }
    }

    /// One more entry selected, whose last line is `last`.
    pub open spec fn taken(self, rules: CaptureRules, last: u64) -> Result<Self, SinkFault> {
        if self.selected == usize::MAX {
            Err(SinkFault::CountOverflow)
        } else {
            let taken = CaptureState {
                selected: (self.selected + 1) as usize,
                ..self
            }.with_committed();
            let until = further(last, rules.spec.after_context);
            Ok(
                CaptureState {
                    after_until: if taken.after_until < until {
                        until
                    } else {
                        taken.after_until
                    },
                    ..taken
                },
            )
        }
    }

    /// An occurrence in a line: the first one makes the line an entry.
    pub open spec fn line_chosen(self, rules: CaptureRules, line: u64) -> Result<Self, SinkFault> {
        if self.last_line == Some(line) {
            Ok(self)
        } else {
            match (CaptureState { last_line: Some(line), ..self }).seen() {
                Err(fault) => Err(fault),
                Ok(seen) => if seen.in_window(rules) {
                    match (CaptureState { line_selected: true, ..seen }).taken(rules, line) {
                        Err(fault) => Err(fault),
                        Ok(taken) => Ok(
                            CaptureState {
                                entries: taken.entries.push(ContentEntry::MatchingLine(line)),
                                ..taken
                            },
                        ),
                    }
                } else {
                    Ok(CaptureState { line_selected: false, ..seen })
                },
            }
        }
    }

    /// An occurrence as an entry of its own, and whether it is selected.
    pub open spec fn occurrence_chosen(self, rules: CaptureRules, last: u64) -> Result<
        (Self, bool),
        SinkFault,
    > {
        match self.seen() {
            Err(fault) => Err(fault),
            Ok(seen) => if seen.in_window(rules) {
                match seen.taken(rules, last) {
                    Err(fault) => Err(fault),
                    Ok(taken) => Ok((taken, true)),
                }
            } else {
                Ok((seen, false))
            },
        }
    }

    /// One more occurrence counted.
    pub open spec fn counted(self) -> Result<Self, SinkFault> {
        if self.occurrence_total == usize::MAX {
            Err(SinkFault::CountOverflow)
        } else {
            Ok(CaptureState { occurrence_total: (self.occurrence_total + 1) as usize, ..self })
        }
    }

    /// An occurrence is kept.
    pub open spec fn with_occurrence(self, rules: CaptureRules, pending: PendingSpec) -> Self {
        let metadata = metadata_len(pending.line_spans.len());
        let text = if rules.spec.capture_match_text {
            range_len(pending.range)
        } else {
            0
        };
        if !self.fits(rules, plan::sat(metadata, text)) {
            self.overflowed()
        } else {
            let there = if self.occurrences.contains_key(pending.start_line) {
                self.occurrences[pending.start_line]
            } else {
                Seq::empty()
            };
            let occurrence = OccurrenceSpec {
                matched_text: if rules.spec.capture_match_text {
                    Some(pending.range)
                } else {
                    None
                },
                start_line: pending.start_line,
                end_line: pending.end_line,
                line_spans: pending.line_spans,
            };
            CaptureState {
                stored_bytes: plan::sat(plan::sat(self.stored_bytes, metadata), text),
                occurrences: self.occurrences.insert(pending.start_line, there.push(occurrence)),
                entries: if rules.by_occurrence {
                    self.entries.push(
                        ContentEntry::Occurrence {
                            start_line: pending.start_line,
                            occurrence_index: there.len() as usize,
                        },
                    )
                } else {
                    self.entries
                },
                ..self
            }
        }
    }

    /// These occurrences are kept, as far as they fit.
    pub open spec fn with_occurrences(self, rules: CaptureRules, pending: Seq<PendingSpec>) -> Self
        decreases pending.len(),
    {
        if pending.len() == 0 {
            self
        } else {
            let before = self.with_occurrences(rules, pending.drop_last());
            if before.overflow {
                before
            } else {
                before.with_occurrence(rules, pending.last())
            }
        }
    }

    /// One line of a block with kept occurrences.
    pub open spec fn with_block_line(
        self,
        rules: CaptureRules,
        block: Block,
        pending: Seq<PendingSpec>,
        index: int,
    ) -> Result<Self, SinkFault> {
        let number = layout::numbered(block.first, index);
        let line = layout::lines_of(block.bytes)[index];
        let kept = touched(pending, number) || number <= self.after_until;
        if !kept && rules.spec.before_context == 0 {
            Ok(self)
        } else {
            match layout::absolute(block.base, line.start, line.end) {
                None => Err(SinkFault::OffsetOverflow),
                Some(range) => {
                    let stored = if kept {
                        self.with_line(rules, number, range)
                    } else {
                        self
                    };
                    Ok(stored.with_recent(rules, number, range))
                },
            }
        }
    }

    /// The first `count` lines of a block with kept occurrences, as far as they fit.
    pub open spec fn with_block_lines(
        self,
        rules: CaptureRules,
        block: Block,
        pending: Seq<PendingSpec>,
        count: int,
    ) -> Result<Self, SinkFault>
        decreases count,
    {
        if count <= 0 {
            Ok(self)
        } else {
            match self.with_block_lines(rules, block, pending, count - 1) {
                Err(fault) => Err(fault),
                Ok(state) => if state.overflow {
                    Ok(state)
                } else {
                    state.with_block_line(rules, block, pending, count - 1)
                },
            }
        }
    }
}

/// The capture, the block and whether to look at more occurrences.
pub type BlockProgress = (CaptureState, BlockState, bool);

/// What one occurrence of a block does once it is looked at.
pub open spec fn occurrence_effect(
    rules: CaptureRules,
    block: Block,
    looked: CaptureState,
    part: BlockState,
    found: (usize, usize),
) -> Result<BlockProgress, SinkFault> {
    let start = found.0 as int;
    let end = found.1 as int;
    let lines = layout::lines_of(block.bytes);
    let from = layout::line_of(lines, start);
    let to = layout::line_of(lines, layout::last_offset(start, end));
    let last = layout::numbered(block.first, to);
    let chosen = if rules.by_occurrence {
        (CaptureState {
            control: if part.laid_out {
                looked.control
            } else {
                looked.control.laid_out(block.bytes.len() as usize)
            },
            ..looked
        }).occurrence_chosen(rules, last)
    } else {
        match looked.line_chosen(rules, block.first) {
            Err(fault) => Err(fault),
            Ok(chosen) => Ok((chosen, chosen.line_selected)),
        }
    };
    match chosen {
        Err(fault) => Err(fault),
        Ok((chosen, selected)) => match chosen.counted() {
            Err(fault) => Err(fault),
            Ok(counted) => {
                let goes_on = if rules.by_occurrence {
                    !counted.full(rules)
                } else {
                    selected
                };
                if !selected {
                    Ok(
                        (
                            counted,
                            BlockState { laid_out: part.laid_out || rules.by_occurrence, ..part },
                            goes_on,
                        ),
                    )
                } else {
                    match layout::absolute(block.base, start, end) {
                        None => Err(SinkFault::OffsetOverflow),
                        Some(range) => Ok(
                            (
                                CaptureState {
                                    control: if part.laid_out || rules.by_occurrence {
                                        counted.control
                                    } else {
                                        counted.control.laid_out(block.bytes.len() as usize)
                                    },
                                    ..counted
                                },
                                BlockState {
                                    laid_out: true,
                                    counted: layout::counted_after(
                                        block.bytes,
                                        part.counted,
                                        start,
                                        end,
                                        from,
                                        to,
                                    ),
                                    pending: part.pending.push(
                                        PendingSpec {
                                            range,
                                            start_line: layout::numbered(block.first, from),
                                            end_line: last,
                                            line_spans: layout::spans_of(
                                                block.bytes,
                                                block.first,
                                                part.counted,
                                                start,
                                                end,
                                                from,
                                                to,
                                            ),
                                        },
                                    ),
                                },
                                goes_on,
                            ),
                        ),
                    }
                }
            },
        },
    }
}

/// What one occurrence of a block does.
pub open spec fn occurrence_step(
    rules: CaptureRules,
    block: Block,
    state: CaptureState,
    part: BlockState,
    found: (usize, usize),
) -> Result<BlockProgress, SinkFault> {
    let looked = CaptureState {
        control: state.control.examined((found.1 - found.0) as usize),
        ..state
    };
    occurrence_effect(rules, block, looked, part, found)
}

/// What the occurrences of a block do, up to the one that ends it.
pub open spec fn occurrence_steps(
    rules: CaptureRules,
    block: Block,
    state: CaptureState,
    part: BlockState,
    found: Seq<(usize, usize)>,
) -> Result<BlockProgress, SinkFault>
    decreases found.len(),
{
    if found.len() == 0 {
        Ok((state, part, true))
    } else {
        match occurrence_steps(rules, block, state, part, found.drop_last()) {
            Err(fault) => Err(fault),
            Ok((state, part, goes_on)) => if goes_on {
                occurrence_step(rules, block, state, part, found.last())
            } else {
                Ok((state, part, false))
            },
        }
    }
}

/// A block nothing is known of yet.
pub open spec fn untouched(block: Block) -> BlockState {
    BlockState {
        laid_out: false,
        counted: layout::uncounted(block.bytes),
        pending: Seq::empty(),
    }
}

/// What a matched block does: the capture afterwards, and whether to go on.
pub open spec fn block_step(
    rules: CaptureRules,
    block: Block,
    state: CaptureState,
    found: Seq<(usize, usize)>,
) -> Result<(CaptureState, bool), SinkFault> {
    let entered = CaptureState { control: state.control.entered(), ..state };
    match occurrence_steps(
        rules,
        block,
        entered,
        untouched(block),
        sink::genuine(block.bytes, found),
    ) {
        Err(fault) => Err(fault),
        Ok((looked, part, _)) => {
            let kept = looked.with_occurrences(rules, part.pending);
            let captured = if part.pending.len() == 0 || kept.overflow {
                Ok(kept)
            } else {
                kept.with_block_lines(
                    rules,
                    block,
                    part.pending,
                    layout::lines_of(block.bytes).len() as int,
                )
            };
            match captured {
                Err(fault) => Err(fault),
                Ok(captured) => if captured.overflow {
                    Err(SinkFault::CaptureOverflow)
                } else {
                    Ok((captured, !captured.full(rules)))
                },
            }
        },
    }
}

/// What a context line does.
pub open spec fn context_step(
    rules: CaptureRules,
    state: CaptureState,
    bytes: Seq<u8>,
    base: u64,
    line: Option<u64>,
    kind: ContextKind,
) -> Result<CaptureState, SinkFault> {
    let captured = match line {
        None => Ok(state),
        Some(number) => {
            let follows = number <= state.after_until;
            let recent = rules.spec.before_context > 0 && kind != ContextKind::Other;
            if !follows && !recent {
                Ok(state)
            } else {
                match layout::absolute(base, 0, layout::without_terminator(bytes) as int) {
                    None => Err(SinkFault::OffsetOverflow),
                    Some(range) => {
                        let stored = if follows {
                            state.with_line(rules, number, range)
                        } else {
                            state
                        };
                        Ok(
                            if recent {
                                stored.with_recent(rules, number, range)
                            } else {
                                stored
                            },
                        )
                    },
                }
            }
        },
    };
    match captured {
        Err(fault) => Err(fault),
        Ok(captured) => if captured.overflow {
            Err(SinkFault::CaptureOverflow)
        } else {
            Ok(captured)
        },
    }
}

/// What a gap between lines does: nothing before it comes before a match behind it.
pub open spec fn gap_step(state: CaptureState) -> CaptureState {
    CaptureState { recent: Seq::empty(), recent_bytes: 0, after_until: 0, ..state }
}

/// Capturing matches with the lines around them.
pub struct ContentSink {
    control: SinkControl,
    rules: CaptureRules,
    occurrences: BTreeMap<u64, Vec<Occurrence>>,
    entries: Vec<ContentEntry>,
    lines: BTreeMap<u64, (u64, u64)>,
    occurrence_total: usize,
    entries_seen: usize,
    selected_entry_count: usize,
    last_matching_line: Option<u64>,
    current_line_selected: bool,
    recent_lines: VecDeque<(u64, (u64, u64))>,
    recent_bytes: usize,
    stored_bytes: usize,
    after_context_until: u64,
    capture_overflow: bool,
}

/// An occurrence that is about to be kept.
struct PendingOccurrence {
    range: (u64, u64),
    start_line: u64,
    end_line: u64,
    line_spans: Vec<LineMatchSpan>,
}

impl View for PendingOccurrence {
    type V = PendingSpec;

    closed spec fn view(&self) -> PendingSpec {
        PendingSpec {
            range: self.range,
            start_line: self.start_line,
            end_line: self.end_line,
            line_spans: self.line_spans@,
        }
    }
}

spec fn pending_views(pending: Seq<PendingOccurrence>) -> Seq<PendingSpec> {
    pending.map(|i: int, occurrence: PendingOccurrence| occurrence@)
}

impl View for ContentSink {
    type V = CaptureState;

    closed spec fn view(&self) -> CaptureState {
        CaptureState {
            control: self.control,
            lines: self.lines@,
            occurrences: occurrences_by_line(self.occurrences@),
            entries: self.entries@,
            occurrence_total: self.occurrence_total,
            entries_seen: self.entries_seen,
            selected: self.selected_entry_count,
            last_line: self.last_matching_line,
            line_selected: self.current_line_selected,
            recent: self.recent_lines@,
            recent_bytes: self.recent_bytes,
            stored_bytes: self.stored_bytes,
            after_until: self.after_context_until,
            overflow: self.capture_overflow,
        }
    }
}

impl ContentSink {
    /// What is kept.
    pub closed spec fn rules(&self) -> CaptureRules {
        self.rules
    }

    /// Whether no more lines are remembered than can come before a match.
    pub closed spec fn wf(&self) -> bool {
        self.recent_lines@.len() <= self.rules.spec.before_context
    }

    /// Nothing captured yet.
    pub fn new(rules: CaptureRules) -> (sink: Self)
        ensures
            sink.wf(),
            sink.rules() == rules,
            sink@ == CaptureState::fresh(),
    {
        let sink = ContentSink {
            control: SinkControl::new(),
            rules,
            occurrences: BTreeMap::new(),
            entries: Vec::new(),
            lines: BTreeMap::new(),
            occurrence_total: 0,
            entries_seen: 0,
            selected_entry_count: 0,
            last_matching_line: None,
            current_line_selected: false,
            recent_lines: VecDeque::new(),
            recent_bytes: 0,
            stored_bytes: 0,
            after_context_until: 0,
            capture_overflow: false,
        };
        proof {
            assert(sink@.occurrences =~= Map::<u64, Seq<OccurrenceSpec>>::empty());
        }
        sink
    }

    fn reserve(&mut self, more: usize) -> (fits: bool)
        ensures
            fits == old(self)@.fits(old(self).rules(), more),
            final(self).wf() == old(self).wf(),
            final(self).rules() == old(self).rules(),
            final(self)@ == if fits {
                old(self)@
            } else {
                old(self)@.overflowed()
            },
    {
        if self.stored_bytes.saturating_add(self.recent_bytes).saturating_add(more)
            > self.rules.spec.capture_heap_limit_bytes {
            self.capture_overflow = true;
            false
        } else {
            true
        }
    }

    fn store_line(&mut self, number: u64, range: (u64, u64))
        requires
            old(self).wf(),
        ensures
            final(self).wf(),
            final(self).rules() == old(self).rules(),
            final(self)@ == old(self)@.with_line(old(self).rules(), number, range),
    {
        if self.lines.contains_key(&number) {
            return;
        }
        let len = len_of_range(range);
        if !self.reserve(len) {
            return;
        }
        self.stored_bytes = self.stored_bytes.saturating_add(len);
        let _ = self.lines.insert(number, range);
    }

    fn push_recent(&mut self, number: u64, range: (u64, u64))
        requires
            old(self).wf(),
        ensures
            final(self).wf(),
            final(self).rules() == old(self).rules(),
            final(self)@ == old(self)@.with_recent(old(self).rules(), number, range),
    {
        if self.rules.spec.before_context == 0 {
            return;
        }
        let count = self.recent_lines.len();
        if count > 0 && self.recent_lines[count - 1].0 == number {
            return;
        }
        if count >= self.rules.spec.before_context {
            if let Some((_, removed)) = self.recent_lines.pop_front() {
                self.recent_bytes = self.recent_bytes.saturating_sub(len_of_range(removed));
            }
        }
        assert(count >= self.rules.spec.before_context ==> self.recent_lines@
            =~= old(self).recent_lines@.drop_first());
        let len = len_of_range(range);
        if !self.reserve(len) {
            return;
        }
        self.recent_bytes = self.recent_bytes.saturating_add(len);
        self.recent_lines.push_back((number, range));
    }

    fn commit_recent(&mut self)
        requires
            old(self).wf(),
        ensures
            final(self).wf(),
            final(self).rules() == old(self).rules(),
            final(self)@ == old(self)@.with_committed(),
    {
        let mut recent: VecDeque<(u64, (u64, u64))> = VecDeque::new();
        core::mem::swap(&mut recent, &mut self.recent_lines);
        self.recent_bytes = 0;
        let ghost started = *self;
        let mut index: usize = 0;
        while index < recent.len()
            invariant
                index <= recent.len(),
                self.rules == started.rules,
                self@ == (CaptureState {
                    lines: committed(
                        started.lines@,
                        started.stored_bytes,
                        recent@.take(index as int),
                    ).0,
                    stored_bytes: committed(
                        started.lines@,
                        started.stored_bytes,
                        recent@.take(index as int),
                    ).1,
                    ..started@
                }),
            decreases recent.len() - index,
        {
            let (number, range) = recent[index];
            proof {
                assert(recent@.take(index + 1).drop_last() =~= recent@.take(index as int));
                assert(recent@.take(index + 1).last() == recent@[index as int]);
            }
            if !self.lines.contains_key(&number) {
                self.stored_bytes = self.stored_bytes.saturating_add(len_of_range(range));
                let _ = self.lines.insert(number, range);
            }
            index += 1;
        }
        assert(recent@.take(recent@.len() as int) =~= recent@);
        assert(self.recent_lines@ == started.recent_lines@) by {
            assert(self@.recent == started@.recent);
        }
    }

    fn is_full(&self) -> (full: bool)
        ensures
            full == self@.full(self.rules()),
    {
        match self.rules.spec.max_selected_entries {
            Some(limit) => self.selected_entry_count >= limit,
            None => false,
        }
    }

    fn see(&mut self) -> (result: Result<(), SinkFault>)
        requires
            old(self).wf(),
        ensures
            final(self).wf(),
            final(self).rules() == old(self).rules(),
            match result {
                Ok(()) => old(self)@.seen() == Ok::<CaptureState, SinkFault>(final(self)@),
                Err(fault) => old(self)@.seen() == Err::<CaptureState, SinkFault>(fault),
            },
    {
        if self.entries_seen == usize::MAX {
            return Err(SinkFault::CountOverflow);
        }
        self.entries_seen = self.entries_seen + 1;
        Ok(())
    }

    fn take_entry(&mut self, last: u64) -> (result: Result<(), SinkFault>)
        requires
            old(self).wf(),
        ensures
            final(self).wf(),
            final(self).rules() == old(self).rules(),
            match result {
                Ok(()) => old(self)@.taken(old(self).rules(), last) == Ok::<
                    CaptureState,
                    SinkFault,
                >(final(self)@),
                Err(fault) => old(self)@.taken(old(self).rules(), last) == Err::<
                    CaptureState,
                    SinkFault,
                >(fault),
            },
    {
        if self.selected_entry_count == usize::MAX {
            return Err(SinkFault::CountOverflow);
        }
        self.selected_entry_count = self.selected_entry_count + 1;
        self.commit_recent();
        let until = last.saturating_add(self.rules.spec.after_context as u64);
        if self.after_context_until < until {
            self.after_context_until = until;
        }
        Ok(())
    }

    fn select_line(&mut self, line: u64) -> (result: Result<bool, SinkFault>)
        requires
            old(self).wf(),
        ensures
            final(self).wf(),
            final(self).rules() == old(self).rules(),
            match result {
                Ok(selected) => {
                    &&& old(self)@.line_chosen(old(self).rules(), line) == Ok::<
                        CaptureState,
                        SinkFault,
                    >(final(self)@)
                    &&& selected == final(self)@.line_selected
                },
                Err(fault) => old(self)@.line_chosen(old(self).rules(), line) == Err::<
                    CaptureState,
                    SinkFault,
                >(fault),
            },
    {
        if let Some(last) = self.last_matching_line {
            if last == line {
                return Ok(self.current_line_selected);
            }
        }
        self.last_matching_line = Some(line);
        self.see()?;
        if self.entries_seen > self.rules.spec.skip_entries && !self.is_full() {
            self.current_line_selected = true;
            self.take_entry(line)?;
            self.entries.push(ContentEntry::MatchingLine(line));
            Ok(true)
        } else {
            self.current_line_selected = false;
            Ok(false)
        }
    }

    fn select_occurrence(&mut self, last: u64) -> (result: Result<bool, SinkFault>)
        requires
            old(self).wf(),
        ensures
            final(self).wf(),
            final(self).rules() == old(self).rules(),
            match result {
                Ok(selected) => old(self)@.occurrence_chosen(old(self).rules(), last) == Ok::<
                    (CaptureState, bool),
                    SinkFault,
                >((final(self)@, selected)),
                Err(fault) => old(self)@.occurrence_chosen(old(self).rules(), last) == Err::<
                    (CaptureState, bool),
                    SinkFault,
                >(fault),
            },
    {
        self.see()?;
        if self.entries_seen > self.rules.spec.skip_entries && !self.is_full() {
            self.take_entry(last)?;
            Ok(true)
        } else {
            Ok(false)
        }
    }

    fn count(&mut self) -> (result: Result<(), SinkFault>)
        requires
            old(self).wf(),
        ensures
            final(self).wf(),
            final(self).rules() == old(self).rules(),
            match result {
                Ok(()) => old(self)@.counted() == Ok::<CaptureState, SinkFault>(final(self)@),
                Err(fault) => old(self)@.counted() == Err::<CaptureState, SinkFault>(fault),
            },
    {
        if self.occurrence_total == usize::MAX {
            return Err(SinkFault::CountOverflow);
        }
        self.occurrence_total = self.occurrence_total + 1;
        Ok(())
    }

    fn store_occurrence(&mut self, pending: PendingOccurrence)
        requires
            old(self).wf(),
        ensures
            final(self).wf(),
            final(self).rules() == old(self).rules(),
            final(self)@ == old(self)@.with_occurrence(old(self).rules(), pending@),
    {
        let spans = pending.line_spans.len();
        let metadata: usize = if spans > (usize::MAX - OCCURRENCE_SIZE_BYTES) / SPAN_SIZE_BYTES {
            usize::MAX
        } else {
            OCCURRENCE_SIZE_BYTES + spans * SPAN_SIZE_BYTES
        };
        let text: usize = if self.rules.spec.capture_match_text {
            len_of_range(pending.range)
        } else {
            0
        };
        if !self.reserve(metadata.saturating_add(text)) {
            return;
        }
        self.stored_bytes = self.stored_bytes.saturating_add(metadata).saturating_add(text);
        let ghost before = self.occurrences@;
        let mut there = match self.occurrences.remove(&pending.start_line) {
            Some(there) => there,
            None => Vec::new(),
        };
        let ghost earlier = there@;
        let occurrence_index = there.len();
        let PendingOccurrence { range, start_line, end_line, line_spans } = pending;
        let occurrence = Occurrence {
            matched_text: if self.rules.spec.capture_match_text {
                Some(range)
            } else {
                None
            },
            start_line,
            end_line,
            line_spans,
        };
        let ghost kept = occurrence@;
        there.push(occurrence);
        let ghost now = there@;
        proof {
            assert(occurrence_views(now) =~= occurrence_views(earlier).push(kept));
            if !before.contains_key(start_line) {
                assert(occurrence_views(earlier) =~= Seq::<OccurrenceSpec>::empty());
            }
        }
        let _ = self.occurrences.insert(start_line, there);
        proof {
            assert(occurrences_by_line(self.occurrences@) =~= occurrences_by_line(before).insert(
                start_line,
                occurrence_views(now),
            ));
        }
        if self.rules.by_occurrence {
            self.entries.push(ContentEntry::Occurrence { start_line, occurrence_index });
        }
    }
}

/// An end of the occurrences of a block stays the end.
proof fn ended_steps_stay(
    rules: CaptureRules,
    block: Block,
    state: CaptureState,
    part: BlockState,
    short: Seq<(usize, usize)>,
    long: Seq<(usize, usize)>,
)
    requires
        short.len() <= long.len(),
        short == long.take(short.len() as int),
        match occurrence_steps(rules, block, state, part, short) {
            Ok((_, _, goes_on)) => !goes_on,
            Err(_) => true,
        },
    ensures
        occurrence_steps(rules, block, state, part, long) == occurrence_steps(
            rules,
            block,
            state,
            part,
            short,
        ),
    decreases long.len(),
{
    if short.len() == long.len() {
        assert(short =~= long);
    } else {
        assert(short =~= long.drop_last().take(short.len() as int));
        ended_steps_stay(rules, block, state, part, short, long.drop_last());
    }
}

/// A block while its occurrences are looked at.
struct BlockScan<'a> {
    bytes: &'a [u8],
    first: u64,
    layout: Option<LineLayout<'a>>,
    cursor: OccurrenceCursor,
    selected_lines: LineIntervals,
    pending: VecDeque<PendingOccurrence>,
    /// The occurrence that was located last.
    reached: Ghost<(int, int)>,
}

impl<'a> View for BlockScan<'a> {
    type V = BlockState;

    closed spec fn view(&self) -> BlockState {
        BlockState {
            laid_out: self.layout is Some,
            counted: match self.layout {
                Some(layout) => layout.counted(),
                None => layout::uncounted(self.bytes@),
            },
            pending: pending_views(self.pending@),
        }
    }
}

impl<'a> BlockScan<'a> {
    spec fn wf(&self) -> bool {
        let lines = layout::lines_of(self.bytes@);
        &&& self.layout matches Some(layout) ==> layout.wf() && layout.bytes() == self.bytes@
            && layout.first() == self.first
        &&& 0 <= self.reached@.0 <= self.reached@.1
        &&& self.cursor.start <= layout::line_of(lines, self.reached@.0)
        &&& self.cursor.end <= layout::line_of(
            lines,
            layout::last_offset(self.reached@.0, self.reached@.1),
        )
        &&& self.pending@.len() > 0 ==> self.layout is Some
        &&& self.selected_lines.wf()
        &&& forall|line: u64| #[trigger]
            self.selected_lines.holds(line) <==> touched(pending_views(self.pending@), line)
        &&& forall|i: int|
            0 <= i < self.selected_lines.ranges().len() ==> (
            #[trigger] self.selected_lines.ranges()[i]).0 <= layout::numbered(
                self.first,
                layout::line_of(lines, self.reached@.0),
            )
    }

    /// Whether the same block is meant.
    spec fn same(&self, other: &Self) -> bool {
        self.bytes@ == other.bytes@ && self.first == other.first
    }

    fn new(bytes: &'a [u8], first: u64) -> (scan: Self)
        ensures
            scan.wf(),
            scan.bytes@ == bytes@,
            scan.first == first,
            scan.reached@ == (0int, 0int),
            forall|base: u64| scan@ == #[trigger] untouched(Block { bytes: bytes@, base, first }),
    {
        let scan = BlockScan {
            bytes,
            first,
            layout: None,
            cursor: OccurrenceCursor::new(),
            selected_lines: LineIntervals::new(),
            pending: VecDeque::new(),
            reached: Ghost((0int, 0int)),
        };
        proof {
            layout::line_of_bounds(bytes@, 0);
            assert(pending_views(scan.pending@) =~= Seq::<PendingSpec>::empty());
            assert forall|line: u64| #[trigger]
                scan.selected_lines.holds(line) <==> touched(
                    pending_views(scan.pending@),
                    line,
                ) by {}
        }
        scan
    }

    /// Divides the block into lines, once, and tells whether that was now.
    fn lay_out(&mut self) -> (now: bool)
        requires
            old(self).wf(),
        ensures
            final(self).wf(),
            final(self).same(old(self)),
            final(self).reached == old(self).reached,
            final(self)@ == (BlockState { laid_out: true, ..old(self)@ }),
            now == !old(self)@.laid_out,
    {
        match self.layout {
            Some(_) => false,
            None => {
                self.layout = Some(LineLayout::new(self.bytes, self.first));
                true
            },
        }
    }

    /// The lines in which an occurrence begins and ends.
    fn locate(&mut self, start: usize, end: usize) -> (indexes: (usize, usize))
        requires
            old(self).wf(),
            old(self)@.laid_out,
            old(self).reached@.1 <= start <= end,
        ensures
            final(self).wf(),
            final(self).same(old(self)),
            final(self)@ == old(self)@,
            final(self).reached@ == (start as int, end as int),
            indexes.0 == layout::line_of(layout::lines_of(old(self).bytes@), start as int),
            indexes.1 == layout::line_of(
                layout::lines_of(old(self).bytes@),
                layout::last_offset(start as int, end as int),
            ),
            indexes.0 <= indexes.1 < layout::lines_of(old(self).bytes@).len(),
    {
        proof {
            layout::later_occurrence_later_lines(
                self.bytes@,
                self.reached@.0,
                self.reached@.1,
                start as int,
                end as int,
            );
        }
        let ghost before = *self;
        let mut cursor = self.cursor;
        let indexes = match &self.layout {
            Some(layout) => layout.locate(start, end, &mut cursor),
            None => (0, 0),
        };
        self.cursor = cursor;
        self.reached = Ghost((start as int, end as int));
        proof {
            assert forall|i: int| 0 <= i < self.selected_lines.ranges().len() implies (
            #[trigger] self.selected_lines.ranges()[i]).0 <= layout::numbered(
                self.first,
                layout::line_of(layout::lines_of(self.bytes@), start as int),
            ) by {
                assert(before.selected_lines.ranges()[i].0 <= layout::numbered(
                    self.first,
                    layout::line_of(layout::lines_of(self.bytes@), before.reached@.0),
                ));
            }
        }
        indexes
    }

    /// Notes an occurrence to keep.
    fn keep(&mut self, range: (u64, u64), start: usize, end: usize, from: usize, to: usize)
        requires
            old(self).wf(),
            old(self)@.laid_out,
            old(self).reached@ == (start as int, end as int),
            from == layout::line_of(layout::lines_of(old(self).bytes@), start as int),
            to == layout::line_of(
                layout::lines_of(old(self).bytes@),
                layout::last_offset(start as int, end as int),
            ),
            from <= to < layout::lines_of(old(self).bytes@).len(),
        ensures
            final(self).wf(),
            final(self).same(old(self)),
            final(self).reached == old(self).reached,
            final(self)@ == (BlockState {
                laid_out: true,
                counted: layout::counted_after(
                    old(self).bytes@,
                    old(self)@.counted,
                    start as int,
                    end as int,
                    from as int,
                    to as int,
                ),
                pending: old(self)@.pending.push(
                    PendingSpec {
                        range,
                        start_line: layout::numbered(old(self).first, from as int),
                        end_line: layout::numbered(old(self).first, to as int),
                        line_spans: layout::spans_of(
                            old(self).bytes@,
                            old(self).first,
                            old(self)@.counted,
                            start as int,
                            end as int,
                            from as int,
                            to as int,
                        ),
                    },
                ),
            }),
    {
        let ghost before = *self;
        let mut layout = match self.layout.take() {
            Some(layout) => layout,
            None => LineLayout::new(self.bytes, self.first),
        };
        let line_spans = layout.line_spans(start, end, from, to);
        self.layout = Some(layout);
        let start_line = self.first.saturating_add(from as u64);
        let end_line = self.first.saturating_add(to as u64);
        self.selected_lines.insert(start_line, end_line);
        let pending = PendingOccurrence { range, start_line, end_line, line_spans };
        let ghost kept = pending@;
        self.pending.push_back(pending);
        proof {
            let earlier = pending_views(before.pending@);
            let now = pending_views(self.pending@);
            assert(now =~= earlier.push(kept));
            assert forall|line: u64| #[trigger] self.selected_lines.holds(line) <==> touched(
                now,
                line,
            ) by {
                assert(self.selected_lines.holds(line) <==> before.selected_lines.holds(line) || (
                start_line <= line <= end_line));
                assert(before.selected_lines.holds(line) <==> touched(earlier, line));
                if touched(earlier, line) {
                    let i = choose|i: int|
                        0 <= i < earlier.len() && (#[trigger] earlier[i]).start_line <= line
                            <= earlier[i].end_line;
                    assert(now[i].start_line <= line <= now[i].end_line);
                }
                if start_line <= line <= end_line {
                    assert(now[earlier.len() as int].start_line <= line
                        <= now[earlier.len() as int].end_line);
                }
                if touched(now, line) && !(start_line <= line <= end_line) {
                    let i = choose|i: int|
                        0 <= i < now.len() && (#[trigger] now[i]).start_line <= line
                            <= now[i].end_line;
                    assert(earlier[i].start_line <= line <= earlier[i].end_line);
                }
            }
        }
    }
}

impl ContentSink {
    fn lay_out(&mut self, scan: &mut BlockScan)
        requires
            old(self).wf(),
            old(scan).wf(),
        ensures
            final(self).wf(),
            final(self).rules() == old(self).rules(),
            final(self)@ == (CaptureState {
                control: if old(scan)@.laid_out {
                    old(self)@.control
                } else {
                    old(self)@.control.laid_out(old(scan).bytes@.len() as usize)
                },
                ..old(self)@
            }),
            final(scan).wf(),
            final(scan).same(old(scan)),
            final(scan).reached == old(scan).reached,
            final(scan)@ == (BlockState { laid_out: true, ..old(scan)@ }),
    {
        let len = scan.bytes.len();
        if scan.lay_out() {
            self.control.note_layout(len);
        }
    }

    /// Looks at one occurrence of a block.
    fn examine(&mut self, scan: &mut BlockScan, base: u64, start: usize, end: usize) -> (result:
        Result<bool, SinkFault>)
        requires
            old(self).wf(),
            old(scan).wf(),
            old(scan).reached@.1 <= start <= end,
        ensures
            final(self).wf(),
            final(self).rules() == old(self).rules(),
            final(scan).wf(),
            final(scan).same(old(scan)),
            final(scan).reached@.1 <= end,
            ({
                let block = Block { bytes: old(scan).bytes@, base, first: old(scan).first };
                let effect = occurrence_effect(
                    old(self).rules(),
                    block,
                    old(self)@,
                    old(scan)@,
                    (start, end),
                );
                match result {
                    Ok(goes_on) => effect == Ok::<BlockProgress, SinkFault>(
                        (final(self)@, final(scan)@, goes_on),
                    ),
                    Err(fault) => effect == Err::<BlockProgress, SinkFault>(fault),
                }
            }),
    {
        let first = scan.first;
        let by_occurrence = self.rules.by_occurrence;
        let mut located: Option<(usize, usize)> = None;
        let selected = if by_occurrence {
            self.lay_out(scan);
            let indexes = scan.locate(start, end);
            located = Some(indexes);
            self.select_occurrence(first.saturating_add(indexes.1 as u64))?
        } else {
            self.select_line(first)?
        };
        self.count()?;
        if selected {
            self.lay_out(scan);
            let (from, to) = match located {
                Some(indexes) => indexes,
                None => scan.locate(start, end),
            };
            match absolute_range(base, start, end) {
                Some(range) => {
                    scan.keep(range, start, end, from, to);
                },
                None => {
                    return Err(SinkFault::OffsetOverflow);
                },
            }
        }
        Ok(
            if by_occurrence {
                !self.is_full()
            } else {
                selected
            },
        )
    }
}

/// Occurrences that no longer fit end the keeping of others.
proof fn overflow_stays(
    rules: CaptureRules,
    state: CaptureState,
    pending: Seq<PendingSpec>,
    count: int,
)
    requires
        0 <= count <= pending.len(),
        state.with_occurrences(rules, pending.take(count)).overflow,
    ensures
        state.with_occurrences(rules, pending) == state.with_occurrences(
            rules,
            pending.take(count),
        ),
    decreases pending.len(),
{
    if count == pending.len() {
        assert(pending.take(count) =~= pending);
    } else {
        assert(pending.drop_last().take(count) =~= pending.take(count));
        overflow_stays(rules, state, pending.drop_last(), count);
    }
}

/// A line that no longer fits ends the capturing of others.
proof fn full_lines_stay(
    rules: CaptureRules,
    block: Block,
    state: CaptureState,
    pending: Seq<PendingSpec>,
    few: int,
    many: int,
)
    requires
        0 <= few <= many,
        state.with_block_lines(rules, block, pending, few) matches Ok(reached) && reached.overflow,
    ensures
        state.with_block_lines(rules, block, pending, many) == state.with_block_lines(
            rules,
            block,
            pending,
            few,
        ),
    decreases many,
{
    if few < many {
        full_lines_stay(rules, block, state, pending, few, many - 1);
    }
}

/// A line past the last number ends the capturing of others.
proof fn failed_lines_stay(
    rules: CaptureRules,
    block: Block,
    state: CaptureState,
    pending: Seq<PendingSpec>,
    few: int,
    many: int,
)
    requires
        0 <= few <= many,
        state.with_block_lines(rules, block, pending, few) is Err,
    ensures
        state.with_block_lines(rules, block, pending, many) == state.with_block_lines(
            rules,
            block,
            pending,
            few,
        ),
    decreases many,
{
    if few < many {
        failed_lines_stay(rules, block, state, pending, few, many - 1);
    }
}

/// The numbers of the lines of a block ascend.
proof fn numbers_ascend(first: u64, earlier: int, later: int)
    requires
        0 <= earlier <= later,
    ensures
        layout::numbered(first, earlier) <= layout::numbered(first, later),
{
}

impl ContentSink {
    /// Looks at the occurrences of a block, up to the one that ends it.
    fn examine_all<W: WorkCheckpoint>(
        &mut self,
        matcher: &GrepMatcher,
        scan: &mut BlockScan,
        base: u64,
        work: &W,
    ) -> (result: Result<(), SinkInterrupt>)
        requires
            old(self).wf(),
            old(scan).wf(),
            old(scan).reached@ == (0int, 0int),
            old(scan)@ == untouched(
                Block { bytes: old(scan).bytes@, base, first: old(scan).first },
            ),
        ensures
            final(self).wf(),
            final(self).rules() == old(self).rules(),
            final(scan).wf(),
            final(scan).same(old(scan)),
            ({
                let block = Block { bytes: old(scan).bytes@, base, first: old(scan).first };
                let steps = occurrence_steps(
                    old(self).rules(),
                    block,
                    old(self)@,
                    untouched(block),
                    sink::genuine(block.bytes, matcher.found_in(block.bytes)),
                );
                match result {
                    Ok(()) => steps matches Ok((state, part, _)) && state == final(self)@ && part
                        == final(scan)@,
                    Err(SinkInterrupt::Stopped(stop)) => work.stops_with(stop) && !work.never_stops(),
                    Err(SinkInterrupt::Fault(fault)) => steps == Err::<BlockProgress, SinkFault>(
                        fault,
                    ),
                }
            }),
    {
        let ghost block = Block { bytes: scan.bytes@, base, first: scan.first };
        let ghost rules = self.rules();
        let ghost entered = self@;
        let bytes = scan.bytes;
        let found = matcher.occurrences(bytes);
        let mut goes_on = true;
        let mut index: usize = 0;
        proof {
            assert(found@.take(0) =~= Seq::<(usize, usize)>::empty());
        }
        while index < found.len() && goes_on
            invariant
                index <= found.len(),
                block.bytes == bytes@,
                block.base == base,
                block.bytes == old(scan).bytes@,
                block.first == old(scan).first,
                rules == old(self).rules(),
                entered == old(self)@,
                scan.bytes@ == bytes@,
                scan.first == block.first,
                self.wf(),
                scan.wf(),
                self.rules() == rules,
                found@ == matcher.found_in(bytes@),
                matcher::occurrences_in_order(found@, bytes@.len() as int),
                forall|j: int| index <= j < found@.len() ==> scan.reached@.1 <= (#[trigger] found@[j]).0,
                occurrence_steps(
                    rules,
                    block,
                    entered,
                    untouched(block),
                    sink::genuine(bytes@, found@.take(index as int)),
                ) == Ok::<BlockProgress, SinkFault>((self@, scan@, goes_on)),
            decreases found.len() - index,
        {
            let (start, end) = found[index];
            let ghost before = sink::genuine(bytes@, found@.take(index as int));
            let ghost now = sink::genuine(bytes@, found@.take(index + 1));
            proof {
                assert(found@.take(index + 1).drop_last() =~= found@.take(index as int));
                assert(found@.take(index + 1).last() == found@[index as int]);
                sink::genuine_grows(bytes@, found@.take(index + 1), found@);
            }
            if !is_synthetic_trailing_empty(bytes, start, end) {
                proof {
                    assert(now.drop_last() =~= before);
                    assert(now.last() == (start, end));
                }
                if let Err(stop) = self.control.occurrence_checkpoint(end - start, work) {
                    return Err(SinkInterrupt::Stopped(stop));
                }
                match self.examine(scan, base, start, end) {
                    Ok(more) => {
                        goes_on = more;
                    },
                    Err(fault) => {
                        proof {
                            ended_steps_stay(
                                rules,
                                block,
                                entered,
                                untouched(block),
                                now,
                                sink::genuine(bytes@, found@),
                            );
                        }
                        return Err(SinkInterrupt::Fault(fault));
                    },
                }
            }
            index += 1;
        }
        proof {
            if goes_on {
                assert(found@.take(index as int) =~= found@);
            } else {
                sink::genuine_grows(bytes@, found@.take(index as int), found@);
                ended_steps_stay(
                    rules,
                    block,
                    entered,
                    untouched(block),
                    sink::genuine(bytes@, found@.take(index as int)),
                    sink::genuine(bytes@, found@),
                );
            }
        }
        Ok(())
    }

    /// Keeps occurrences, as far as they fit.
    fn store_occurrences(&mut self, pending: VecDeque<PendingOccurrence>)
        requires
            old(self).wf(),
        ensures
            final(self).wf(),
            final(self).rules() == old(self).rules(),
            final(self)@ == old(self)@.with_occurrences(
                old(self).rules(),
                pending_views(pending@),
            ),
    {
        let ghost all = pending_views(pending@);
        let ghost started = self@;
        let ghost rules = self.rules();
        let mut rest = pending;
        let ghost mut done: int = 0;
        proof {
            assert(all.take(0) =~= Seq::<PendingSpec>::empty());
            assert(pending_views(rest@) =~= all.skip(0));
        }
        while rest.len() > 0 && !self.capture_overflow
            invariant
                self.wf(),
                self.rules() == rules,
                0 <= done <= all.len(),
                pending_views(rest@) == all.skip(done),
                self@ == started.with_occurrences(rules, all.take(done)),
            decreases rest@.len(),
        {
            let ghost before = rest@;
            if let Some(next) = rest.pop_front() {
                proof {
                    assert(pending_views(before)[0] == before[0]@);
                    assert(pending_views(before).len() == all.len() - done);
                    assert(all.skip(done)[0] == all[done]);
                    assert(pending_views(rest@) =~= pending_views(before).skip(1));
                    assert(pending_views(rest@) =~= all.skip(done + 1));
                    assert(all.take(done + 1).drop_last() =~= all.take(done));
                    assert(all.take(done + 1).last() == all[done]);
                    done = done + 1;
                }
                self.store_occurrence(next);
            }
        }
        proof {
            if self@.overflow {
                overflow_stays(rules, started, all, done);
            } else {
                assert(pending_views(rest@).len() == 0);
                assert(all.take(done) =~= all);
            }
        }
    }

    /// Captures the lines of a block with kept occurrences.
    fn capture_callback_lines(
        &mut self,
        scan: &BlockScan,
        base: u64,
        Ghost(pending): Ghost<Seq<PendingSpec>>,
    ) -> (result: Result<(), SinkFault>)
        requires
            old(self).wf(),
            !old(self)@.overflow,
            scan.layout matches Some(layout) && layout.wf() && layout.bytes() == scan.bytes@,
            scan.selected_lines.wf(),
            forall|line: u64| #[trigger]
                scan.selected_lines.holds(line) <==> touched(pending, line),
        ensures
            final(self).wf(),
            final(self).rules() == old(self).rules(),
            ({
                let block = Block { bytes: scan.bytes@, base, first: scan.first };
                let captured = old(self)@.with_block_lines(
                    old(self).rules(),
                    block,
                    pending,
                    layout::lines_of(block.bytes).len() as int,
                );
                match result {
                    Ok(()) => captured == Ok::<CaptureState, SinkFault>(final(self)@),
                    Err(fault) => captured == Err::<CaptureState, SinkFault>(fault),
                }
            }),
    {
        let ghost block = Block { bytes: scan.bytes@, base, first: scan.first };
        let ghost started = self@;
        let ghost rules = self.rules();
        let ghost lines = layout::lines_of(scan.bytes@);
        if let Some(layout) = &scan.layout {
            let count = layout.line_count();
            let mut cursor: usize = 0;
            let mut index: usize = 0;
            while index < count
                invariant
                    self.wf(),
                    self.rules() == rules,
                    rules == old(self).rules(),
                    started == old(self)@,
                    layout.wf(),
                    scan.selected_lines.wf(),
                    forall|line: u64| #[trigger]
                        scan.selected_lines.holds(line) <==> touched(pending, line),
                    layout.bytes() == scan.bytes@,
                    block == (Block { bytes: scan.bytes@, base, first: scan.first }),
                    lines == layout::lines_of(scan.bytes@),
                    count == lines.len(),
                    index <= count,
                    forall|i: int|
                        0 <= i < cursor && i < scan.selected_lines.ranges().len() && index > 0 ==> (
                        #[trigger] scan.selected_lines.ranges()[i]).1 < layout::numbered(
                            scan.first,
                            index - 1,
                        ),
                    index == 0 ==> cursor == 0,
                    !self@.overflow,
                    started.with_block_lines(rules, block, pending, index as int) == Ok::<
                        CaptureState,
                        SinkFault,
                    >(self@),
                decreases count - index,
            {
                let line = layout.line(index);
                let number = scan.first.saturating_add(index as u64);
                proof {
                    if index > 0 {
                        numbers_ascend(scan.first, index - 1, index as int);
                    }
                }
                let selected = scan.selected_lines.contains(number, &mut cursor);
                assert(selected == touched(pending, number));
                let kept = selected || number <= self.after_context_until;
                if kept || self.rules.spec.before_context > 0 {
                    match absolute_range(base, line.content_start, line.content_end) {
                        Some(range) => {
                            if kept {
                                self.store_line(number, range);
                            }
                            self.push_recent(number, range);
                        },
                        None => {
                            proof {
                                failed_lines_stay(
                                    rules,
                                    block,
                                    started,
                                    pending,
                                    index + 1,
                                    count as int,
                                );
                            }
                            return Err(SinkFault::OffsetOverflow);
                        },
                    }
                }
                if self.capture_overflow {
                    proof {
                        full_lines_stay(
                            rules,
                            block,
                            started,
                            pending,
                            index + 1,
                            count as int,
                        );
                    }
                    return Ok(());
                }
                index += 1;
            }
        }
        Ok(())
    }

    /// Looks at a matched block, keeps what is asked for, and tells whether to go on.
    pub fn matched<W: WorkCheckpoint>(
        &mut self,
        matcher: &GrepMatcher,
        bytes: &[u8],
        base: u64,
        line: Option<u64>,
        work: &W,
    ) -> (result: Result<bool, SinkInterrupt>)
        requires
            old(self).wf(),
        ensures
            final(self).wf(),
            final(self).rules() == old(self).rules(),
            ({
                let block = Block { bytes: bytes@, base, first: plan::or_else(line, 1) };
                let step = block_step(
                    old(self).rules(),
                    block,
                    old(self)@,
                    matcher.found_in(bytes@),
                );
                match result {
                    Ok(goes_on) => step == Ok::<(CaptureState, bool), SinkFault>(
                        (final(self)@, goes_on),
                    ),
                    Err(SinkInterrupt::Stopped(stop)) => work.stops_with(stop) && !work.never_stops(),
                    Err(SinkInterrupt::Fault(fault)) => step == Err::<
                        (CaptureState, bool),
                        SinkFault,
                    >(fault),
                }
            }),
    {
        if let Err(stop) = self.control.sink_match_checkpoint(work) {
            return Err(SinkInterrupt::Stopped(stop));
        }
        let first = match line {
            Some(line) => line,
            None => 1,
        };
        let mut scan = BlockScan::new(bytes, first);
        assert(scan@ == untouched(Block { bytes: bytes@, base, first }));
        self.examine_all(matcher, &mut scan, base, work)?;
        if scan.pending.len() > 0 {
            let ghost part = scan@;
            let mut pending: VecDeque<PendingOccurrence> = VecDeque::new();
            core::mem::swap(&mut pending, &mut scan.pending);
            self.store_occurrences(pending);
            if !self.capture_overflow {
                if let Err(fault) = self.capture_callback_lines(&scan, base, Ghost(part.pending)) {
                    return Err(SinkInterrupt::Fault(fault));
                }
            }
        }
        if self.capture_overflow {
            return Err(SinkInterrupt::Fault(SinkFault::CaptureOverflow));
        }
        Ok(!self.is_full())
    }
}

impl ContentSink {
    /// Looks at a context line.
    pub fn context<W: WorkCheckpoint>(
        &mut self,
        bytes: &[u8],
        base: u64,
        line: Option<u64>,
        kind: ContextKind,
        work: &W,
    ) -> (result: Result<bool, SinkInterrupt>)
        requires
            old(self).wf(),
        ensures
            final(self).wf(),
            final(self).rules() == old(self).rules(),
            ({
                let step = context_step(old(self).rules(), old(self)@, bytes@, base, line, kind);
                match result {
                    Ok(goes_on) => goes_on && step == Ok::<CaptureState, SinkFault>(final(self)@),
                    Err(SinkInterrupt::Stopped(stop)) => work.stops_with(stop) && !work.never_stops(),
                    Err(SinkInterrupt::Fault(fault)) => step == Err::<CaptureState, SinkFault>(
                        fault,
                    ),
                }
            }),
    {
        if let Err(stop) = work.check_stop() {
            return Err(SinkInterrupt::Stopped(stop));
        }
        if let Some(number) = line {
            let follows = number <= self.after_context_until;
            let recent = self.rules.spec.before_context > 0 && kind != ContextKind::Other;
            if follows || recent {
                let len = strip_line_terminator(bytes);
                match absolute_range(base, 0, len) {
                    Some(range) => {
                        if follows {
                            self.store_line(number, range);
                        }
                        if recent {
                            self.push_recent(number, range);
                        }
                    },
                    None => {
                        return Err(SinkInterrupt::Fault(SinkFault::OffsetOverflow));
                    },
                }
            }
        }
        if self.capture_overflow {
            Err(SinkInterrupt::Fault(SinkFault::CaptureOverflow))
        } else {
            Ok(true)
        }
    }

    /// Passes a gap between lines.
    pub fn context_break<W: WorkCheckpoint>(&mut self, work: &W) -> (result: Result<
        bool,
        SinkInterrupt,
    >)
        requires
            old(self).wf(),
        ensures
            final(self).wf(),
            final(self).rules() == old(self).rules(),
            match result {
                Ok(goes_on) => goes_on && final(self)@ == gap_step(old(self)@),
                Err(SinkInterrupt::Stopped(stop)) => work.stops_with(stop) && !work.never_stops(),
                Err(SinkInterrupt::Fault(_)) => false,
            },
    {
        if let Err(stop) = work.check_stop() {
            return Err(SinkInterrupt::Stopped(stop));
        }
        self.recent_lines.clear();
        self.recent_bytes = 0;
        self.after_context_until = 0;
        Ok(true)
    }

    /// How much work was done.
    pub fn control(&self) -> (control: SinkControl)
        ensures
            control == self@.control,
    {
        self.control
    }

    /// How many entries were seen, in the window or not.
    pub fn entries_seen(&self) -> (count: usize)
        ensures
            count == self@.entries_seen,
    {
        self.entries_seen
    }

    /// What was captured.
    pub fn into_payload(
        self,
        text: Vec<u8>,
        total_lines: usize,
        has_trailing_newline: bool,
    ) -> (payload: ContentPayload)
        ensures
            payload@ == (ContentView {
                lines: self@.lines,
                occurrences: self@.occurrences,
                entries: self@.entries,
                occurrence_total: self@.occurrence_total,
                total_lines,
                has_trailing_newline,
                text: text@,
            }),
    {
        ContentPayload {
            lines: self.lines,
            occurrences: self.occurrences,
            entries: self.entries,
            occurrence_total: self.occurrence_total,
            total_lines,
            has_trailing_newline,
            text,
        }
    }
}

/// What was captured of one file. Lines and matched texts are ranges of its text.
#[derive(Debug)]
pub struct ContentPayload {
    pub lines: BTreeMap<u64, (u64, u64)>,
    pub occurrences: BTreeMap<u64, Vec<Occurrence>>,
    pub entries: Vec<ContentEntry>,
    pub occurrence_total: usize,
    pub total_lines: usize,
    pub has_trailing_newline: bool,
    /// The text of the file in UTF-8.
    pub text: Vec<u8>,
}

/// The mathematical value of a [`ContentPayload`].
pub struct ContentView {
    pub lines: Map<u64, (u64, u64)>,
    pub occurrences: Map<u64, Seq<OccurrenceSpec>>,
    pub entries: Seq<ContentEntry>,
    pub occurrence_total: usize,
    pub total_lines: usize,
    pub has_trailing_newline: bool,
    pub text: Seq<u8>,
}

impl View for ContentPayload {
    type V = ContentView;

    open spec fn view(&self) -> ContentView {
        ContentView {
            lines: self.lines@,
            occurrences: occurrences_by_line(self.occurrences@),
            entries: self.entries@,
            occurrence_total: self.occurrence_total,
            total_lines: self.total_lines,
            has_trailing_newline: self.has_trailing_newline,
            text: self.text@,
        }
    }
}

/// How many of `seen` entries a window takes.
pub open spec fn window_len(rules: CaptureRules, seen: usize) -> int {
    let behind = if seen > rules.spec.skip_entries {
        seen - rules.spec.skip_entries
    } else {
        0
    };
    match rules.spec.max_selected_entries {
        Some(limit) => if behind < limit {
            behind
        } else {
            limit as int
        },
        None => behind,
    }
}

/// What the remembered lines take.
pub open spec fn total_len(recent: Seq<(u64, (u64, u64))>) -> nat
    decreases recent.len(),
{
    if recent.len() == 0 {
        0
    } else {
        total_len(recent.drop_last()) + range_len(recent.last().1) as nat
    }
}

/// Whether what is kept stays within its limit. A limit of the greatest number is none.
pub open spec fn within_limit(rules: CaptureRules, state: CaptureState) -> bool {
    rules.spec.capture_heap_limit_bytes < usize::MAX ==> {
        &&& state.recent_bytes == total_len(state.recent)
        &&& state.stored_bytes + state.recent_bytes <= rules.spec.capture_heap_limit_bytes
    }
}

/// Whether exactly the entries of the window are selected, and each of them is kept but for
/// `pending` ones that are about to be.
pub open spec fn windowed(rules: CaptureRules, state: CaptureState, pending: nat) -> bool {
    &&& state.selected == window_len(rules, state.entries_seen)
    &&& state.entries.len() + (if rules.by_occurrence {
        pending
    } else {
        0
    }) == state.selected
}

/// Whether an entry stands for something that is kept.
pub open spec fn known(occurrences: Map<u64, Seq<OccurrenceSpec>>, entry: ContentEntry) -> bool {
    match entry {
        ContentEntry::MatchingLine(_) => true,
        ContentEntry::Occurrence { start_line, occurrence_index } => occurrences.contains_key(
            start_line,
        ) && occurrence_index < occurrences[start_line].len(),
    }
}

/// Whether every occurrence ends in no earlier line than it begins in.
pub open spec fn rising(occurrences: Map<u64, Seq<OccurrenceSpec>>) -> bool {
    forall|line: u64, i: int|
        occurrences.contains_key(line) && 0 <= i < occurrences[line].len() ==> (
        #[trigger] occurrences[line][i]).start_line <= occurrences[line][i].end_line
}

/// Whether every occurrence ends in no earlier line than it begins in, and every entry stands for
/// something that is kept.
pub open spec fn all_known(
    occurrences: Map<u64, Seq<OccurrenceSpec>>,
    entries: Seq<ContentEntry>,
) -> bool {
    &&& rising(occurrences)
    &&& forall|i: int| 0 <= i < entries.len() ==> known(occurrences, #[trigger] entries[i])
}

spec fn pending_rise(pending: Seq<PendingSpec>) -> bool {
    forall|i: int|
        0 <= i < pending.len() ==> (#[trigger] pending[i]).start_line <= pending[i].end_line
}

/// What holds of every capture: exactly the entries of the window are selected, each of them is
/// kept, and what is kept stays within the limit.
pub open spec fn sound(rules: CaptureRules, state: CaptureState) -> bool {
    &&& windowed(rules, state, 0)
    &&& within_limit(rules, state)
    &&& all_known(state.occurrences, state.entries)
    &&& !state.overflow
}

/// A capture that nothing went into is sound.
pub proof fn fresh_is_sound(rules: CaptureRules)
    ensures
        sound(rules, CaptureState::fresh()),
{
}

proof fn committed_len(
    lines: Map<u64, (u64, u64)>,
    stored: usize,
    recent: Seq<(u64, (u64, u64))>,
)
    ensures
        committed(lines, stored, recent).1 <= stored + total_len(recent),
    decreases recent.len(),
{
    if recent.len() > 0 {
        committed_len(lines, stored, recent.drop_last());
    }
}

proof fn total_len_without_first(recent: Seq<(u64, (u64, u64))>)
    requires
        recent.len() > 0,
    ensures
        total_len(recent) == total_len(recent.drop_first()) + range_len(recent[0].1),
    decreases recent.len(),
{
    if recent.len() == 1 {
        assert(recent.drop_first() =~= recent.drop_last());
        assert(total_len(recent.drop_last()) == 0);
    } else {
        assert(recent.drop_first().drop_last() =~= recent.drop_last().drop_first());
        total_len_without_first(recent.drop_last());
    }
}

proof fn taking_keeps(rules: CaptureRules, state: CaptureState, last: u64)
    requires
        within_limit(rules, state),
        state.taken(rules, last) is Ok,
    ensures
        ({
            let taken = state.taken(rules, last)->Ok_0;
            &&& within_limit(rules, taken)
            &&& taken.selected == state.selected + 1
            &&& taken.entries == state.entries
            &&& taken.occurrences == state.occurrences
            &&& taken.entries_seen == state.entries_seen
            &&& taken.overflow == state.overflow
        }),
{
    committed_len(state.lines, state.stored_bytes, state.recent);
    assert(total_len(Seq::<(u64, (u64, u64))>::empty()) == 0);
}

proof fn lines_keep(rules: CaptureRules, state: CaptureState, number: u64, range: (u64, u64))
    requires
        within_limit(rules, state),
    ensures
        ({
            let stored = state.with_line(rules, number, range);
            &&& within_limit(rules, stored)
            &&& stored.selected == state.selected
            &&& stored.entries == state.entries
            &&& stored.occurrences == state.occurrences
            &&& stored.entries_seen == state.entries_seen
        }),
        ({
            let recent = state.with_recent(rules, number, range);
            &&& within_limit(rules, recent)
            &&& recent.selected == state.selected
            &&& recent.entries == state.entries
            &&& recent.occurrences == state.occurrences
            &&& recent.entries_seen == state.entries_seen
        }),
{
    if state.recent.len() > 0 {
        total_len_without_first(state.recent);
    }
    let before = rules.spec.before_context;
    if before > 0 && !(state.recent.len() > 0 && state.recent.last().0 == number) {
        let kept = if state.recent.len() >= before {
            state.recent.drop_first()
        } else {
            state.recent
        };
        assert(kept.push((number, range)).drop_last() =~= kept);
    }
}

proof fn effect_keeps(
    rules: CaptureRules,
    block: Block,
    looked: CaptureState,
    part: BlockState,
    found: (usize, usize),
)
    requires
        windowed(rules, looked, part.pending.len()),
        pending_rise(part.pending),
        within_limit(rules, looked),
        all_known(looked.occurrences, looked.entries),
        occurrence_effect(rules, block, looked, part, found) is Ok,
    ensures
        ({
            let (state, next, _) = occurrence_effect(rules, block, looked, part, found)->Ok_0;
            &&& windowed(rules, state, next.pending.len())
            &&& pending_rise(next.pending)
            &&& within_limit(rules, state)
            &&& all_known(state.occurrences, state.entries)
            &&& state.overflow == looked.overflow
        }),
{
    let lines = layout::lines_of(block.bytes);
    let to = layout::line_of(
        lines,
        layout::last_offset(found.0 as int, found.1 as int),
    );
    let last = layout::numbered(block.first, to);
    let from = layout::line_of(lines, found.0 as int);
    layout::occurrence_lines_rise(block.bytes, found.0 as int, found.1 as int);
    layout::line_of_bounds(block.bytes, found.0 as int);
    assert(layout::numbered(block.first, from) <= last);
    if rules.by_occurrence {
        let laid = CaptureState {
            control: if part.laid_out {
                looked.control
            } else {
                looked.control.laid_out(block.bytes.len() as usize)
            },
            ..looked
        };
        let seen = laid.seen()->Ok_0;
        if seen.in_window(rules) {
            taking_keeps(rules, seen, last);
        }
    } else if looked.last_line != Some(block.first) {
        let seen = (CaptureState { last_line: Some(block.first), ..looked }).seen()->Ok_0;
        if seen.in_window(rules) {
            taking_keeps(rules, CaptureState { line_selected: true, ..seen }, block.first);
        }
    }
    let next = (occurrence_effect(rules, block, looked, part, found)->Ok_0).1;
    assert(pending_rise(next.pending)) by {
        assert forall|i: int| 0 <= i < next.pending.len() implies (
        #[trigger] next.pending[i]).start_line <= next.pending[i].end_line by {
            if i < part.pending.len() {
                assert(next.pending[i] == part.pending[i]);
            }
        }
    }
}

proof fn steps_keep(
    rules: CaptureRules,
    block: Block,
    state: CaptureState,
    part: BlockState,
    found: Seq<(usize, usize)>,
)
    requires
        windowed(rules, state, part.pending.len()),
        pending_rise(part.pending),
        within_limit(rules, state),
        all_known(state.occurrences, state.entries),
        occurrence_steps(rules, block, state, part, found) is Ok,
    ensures
        ({
            let (looked, next, _) = occurrence_steps(rules, block, state, part, found)->Ok_0;
            &&& windowed(rules, looked, next.pending.len())
            &&& pending_rise(next.pending)
            &&& within_limit(rules, looked)
            &&& all_known(looked.occurrences, looked.entries)
            &&& looked.overflow == state.overflow
        }),
    decreases found.len(),
{
    if found.len() > 0 {
        steps_keep(rules, block, state, part, found.drop_last());
        let (before, next, goes_on) = occurrence_steps(
            rules,
            block,
            state,
            part,
            found.drop_last(),
        )->Ok_0;
        if goes_on {
            let looked = CaptureState {
                control: before.control.examined((found.last().1 - found.last().0) as usize),
                ..before
            };
            effect_keeps(rules, block, looked, next, found.last());
        }
    }
}

proof fn occurrences_grow(rules: CaptureRules, state: CaptureState, pending: Seq<PendingSpec>)
    requires
        pending_rise(pending),
        within_limit(rules, state),
        all_known(state.occurrences, state.entries),
    ensures
        ({
            let kept = state.with_occurrences(rules, pending);
            &&& within_limit(rules, kept)
            &&& all_known(kept.occurrences, kept.entries)
            &&& kept.selected == state.selected
            &&& kept.entries_seen == state.entries_seen
            &&& !kept.overflow ==> kept.entries.len() == state.entries.len() + (
            if rules.by_occurrence {
                pending.len()
            } else {
                0
            })
        }),
    decreases pending.len(),
{
    if pending.len() > 0 {
        assert(pending_rise(pending.drop_last())) by {
            assert forall|i: int| 0 <= i < pending.len() - 1 implies (
            #[trigger] pending.drop_last()[i]).start_line <= pending.drop_last()[i].end_line by {
                assert(pending[i].start_line <= pending[i].end_line);
            }
        }
        occurrences_grow(rules, state, pending.drop_last());
        let before = state.with_occurrences(rules, pending.drop_last());
        let kept = state.with_occurrences(rules, pending);
        assert(pending[pending.len() - 1].start_line <= pending[pending.len() - 1].end_line);
        assert(rising(kept.occurrences)) by {
            assert forall|line: u64, i: int|
                kept.occurrences.contains_key(line) && 0 <= i
                    < kept.occurrences[line].len() implies (
            #[trigger] kept.occurrences[line][i]).start_line
                <= kept.occurrences[line][i].end_line by {
                if before.occurrences.contains_key(line) && i < before.occurrences[line].len() {
                    assert(before.occurrences[line][i].start_line
                        <= before.occurrences[line][i].end_line);
                    assert(kept.occurrences[line][i] == before.occurrences[line][i]);
                }
            }
        }
        assert forall|i: int| 0 <= i < kept.entries.len() implies known(
            kept.occurrences,
            #[trigger] kept.entries[i],
        ) by {
            if i < before.entries.len() {
                assert(known(before.occurrences, before.entries[i]));
            }
        }
    }
}

proof fn block_lines_keep(
    rules: CaptureRules,
    block: Block,
    state: CaptureState,
    pending: Seq<PendingSpec>,
    count: int,
)
    requires
        within_limit(rules, state),
        state.with_block_lines(rules, block, pending, count) is Ok,
    ensures
        ({
            let captured = state.with_block_lines(rules, block, pending, count)->Ok_0;
            &&& within_limit(rules, captured)
            &&& captured.selected == state.selected
            &&& captured.entries == state.entries
            &&& captured.occurrences == state.occurrences
            &&& captured.entries_seen == state.entries_seen
        }),
    decreases count,
{
    if count > 0 {
        block_lines_keep(rules, block, state, pending, count - 1);
        let before = state.with_block_lines(rules, block, pending, count - 1)->Ok_0;
        if !before.overflow {
            let number = layout::numbered(block.first, count - 1);
            let line = layout::lines_of(block.bytes)[count - 1];
            if let Some(range) = layout::absolute(block.base, line.start, line.end) {
                lines_keep(rules, before, number, range);
                lines_keep(rules, before.with_line(rules, number, range), number, range);
            }
        }
    }
}

/// A matched block keeps a capture sound: whatever is found, exactly the entries of the window
/// are selected and kept, and what is kept stays within the limit.
pub proof fn block_stays_sound(
    rules: CaptureRules,
    block: Block,
    state: CaptureState,
    found: Seq<(usize, usize)>,
)
    requires
        sound(rules, state),
        block_step(rules, block, state, found) is Ok,
    ensures
        sound(rules, (block_step(rules, block, state, found)->Ok_0).0),
{
    let entered = CaptureState { control: state.control.entered(), ..state };
    let occurrences = sink::genuine(block.bytes, found);
    steps_keep(rules, block, entered, untouched(block), occurrences);
    let (looked, part, _) = occurrence_steps(
        rules,
        block,
        entered,
        untouched(block),
        occurrences,
    )->Ok_0;
    occurrences_grow(rules, looked, part.pending);
    let kept = looked.with_occurrences(rules, part.pending);
    if part.pending.len() > 0 && !kept.overflow {
        block_lines_keep(
            rules,
            block,
            kept,
            part.pending,
            layout::lines_of(block.bytes).len() as int,
        );
    }
}

/// A context line keeps a capture sound.
pub proof fn context_stays_sound(
    rules: CaptureRules,
    state: CaptureState,
    bytes: Seq<u8>,
    base: u64,
    line: Option<u64>,
    kind: ContextKind,
)
    requires
        sound(rules, state),
        context_step(rules, state, bytes, base, line, kind) is Ok,
    ensures
        sound(rules, context_step(rules, state, bytes, base, line, kind)->Ok_0),
{
    if let Some(number) = line {
        if let Some(range) = layout::absolute(
            base,
            0,
            layout::without_terminator(bytes) as int,
        ) {
            lines_keep(rules, state, number, range);
            lines_keep(rules, state.with_line(rules, number, range), number, range);
        }
    }
}

/// A gap keeps a capture sound.
pub proof fn gap_stays_sound(rules: CaptureRules, state: CaptureState)
    requires
        sound(rules, state),
    ensures
        sound(rules, gap_step(state)),
{
    assert(total_len(Seq::<(u64, (u64, u64))>::empty()) == 0);
}

} // verus!
