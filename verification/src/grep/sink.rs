//! Whether a text matches, and how often.

use crate::grep::layout;
use crate::grep::layout::is_synthetic_trailing_empty;
use crate::grep::matcher;
use crate::grep::matcher::GrepMatcher;
use crate::grep::plan;
use crate::operation::{WorkCheckpoint, WorkStage, WorkStop};
use vstd::prelude::*;

verus! {

/// Occurrences after which a search asks again whether to go on.
pub const OCCURRENCE_CHECK_INTERVAL: usize = 256;

/// Bytes of occurrences after which a search asks again whether to go on.
pub const OCCURRENCE_BYTE_CHECK_INTERVAL: usize = 65536;

/// How much work a search did.
#[derive(Clone, Copy, Debug, PartialEq, Eq, Structural)]
pub struct SinkMetrics {
    pub sink_matches: usize,
    pub occurrences_examined: usize,
    pub line_layout_builds: usize,
    pub line_layout_bytes: usize,
    /// Stays 0: what is kept of the source is where it lies.
    pub source_bytes_copied: usize,
}

/// Why keeping what was found went wrong.
#[derive(Clone, Copy, Debug, PartialEq, Eq, Structural)]
pub enum SinkFault {
    /// A position is past the last number.
    OffsetOverflow,
    /// What was captured exceeds its limit.
    CaptureOverflow,
    /// A count is past the last number.
    CountOverflow,
}

/// Why a search ended early.
#[derive(Clone, Copy, Debug, PartialEq, Eq, Structural)]
pub enum SinkInterrupt {
    /// It was told to stop.
    Stopped(WorkStop),
    /// It failed.
    Fault(SinkFault),
}

/// When a search asks whether to go on, and how much it did.
#[derive(Clone, Copy, Debug, PartialEq, Eq, Structural)]
pub struct SinkControl {
    pub occurrences_since_check: usize,
    pub bytes_since_check: usize,
    pub metrics: SinkMetrics,
}

impl SinkControl {
    /// Nothing done yet.
    pub open spec fn fresh() -> Self {
        SinkControl {
            occurrences_since_check: 0,
            bytes_since_check: 0,
            metrics: SinkMetrics {
                sink_matches: 0,
                occurrences_examined: 0,
                line_layout_builds: 0,
                line_layout_bytes: 0,
                source_bytes_copied: 0,
            },
        }
    }

    /// One more block looked at.
    pub open spec fn entered(self) -> Self {
        SinkControl {
            metrics: SinkMetrics {
                sink_matches: plan::sat(self.metrics.sink_matches, 1),
                ..self.metrics
            },
            ..self
        }
    }

    /// Whether one more occurrence of this length makes a check due.
    pub open spec fn due(self, span: usize) -> bool {
        plan::sat(self.occurrences_since_check, 1) >= OCCURRENCE_CHECK_INTERVAL || plan::sat(
            self.bytes_since_check,
            span,
        ) >= OCCURRENCE_BYTE_CHECK_INTERVAL
    }

    /// One more occurrence of this length looked at.
    pub open spec fn examined(self, span: usize) -> Self {
        SinkControl {
            occurrences_since_check: if self.due(span) {
                0
            } else {
                plan::sat(self.occurrences_since_check, 1)
            },
            bytes_since_check: if self.due(span) {
                0
            } else {
                plan::sat(self.bytes_since_check, span)
            },
            metrics: SinkMetrics {
                occurrences_examined: plan::sat(self.metrics.occurrences_examined, 1),
                ..self.metrics
            },
        }
    }

    /// One more block divided into its lines.
    pub open spec fn laid_out(self, bytes: usize) -> Self {
        SinkControl {
            metrics: SinkMetrics {
                line_layout_builds: plan::sat(self.metrics.line_layout_builds, 1),
                line_layout_bytes: plan::sat(self.metrics.line_layout_bytes, bytes),
                ..self.metrics
            },
            ..self
        }
    }

    /// Nothing done yet.
    pub fn new() -> (control: Self)
        ensures
            control == SinkControl::fresh(),
    {
        SinkControl {
            occurrences_since_check: 0,
            bytes_since_check: 0,
            metrics: SinkMetrics {
                sink_matches: 0,
                occurrences_examined: 0,
                line_layout_builds: 0,
                line_layout_bytes: 0,
                source_bytes_copied: 0,
            },
        }
    }

    /// Asks whether to look at one more block.
    pub fn sink_match_checkpoint<W: WorkCheckpoint>(&mut self, work: &W) -> (result: Result<
        (),
        WorkStop,
    >)
        ensures
            work.never_stops() ==> result is Ok,
            result matches Err(stop) ==> work.stops_with(stop),
            *final(self) == if result is Ok {
                old(self).entered()
            } else {
                *old(self)
            },
    {
        work.check_work(WorkStage::SinkMatch)?;
        self.metrics.sink_matches = self.metrics.sink_matches.saturating_add(1);
        Ok(())
    }

    /// Notes one more occurrence and, when a check is due, asks whether to go on.
    pub fn occurrence_checkpoint<W: WorkCheckpoint>(&mut self, span: usize, work: &W) -> (result:
        Result<(), WorkStop>)
        ensures
            work.never_stops() || !old(self).due(span) ==> result is Ok,
            result matches Err(stop) ==> work.stops_with(stop),
            *final(self) == old(self).examined(span),
    {
        self.metrics.occurrences_examined = self.metrics.occurrences_examined.saturating_add(1);
        self.occurrences_since_check = self.occurrences_since_check.saturating_add(1);
        self.bytes_since_check = self.bytes_since_check.saturating_add(span);
        if self.occurrences_since_check < OCCURRENCE_CHECK_INTERVAL && self.bytes_since_check
            < OCCURRENCE_BYTE_CHECK_INTERVAL {
            return Ok(());
        }
        self.occurrences_since_check = 0;
        self.bytes_since_check = 0;
        work.check_work(WorkStage::OccurrenceBatch)
    }

    pub(crate) fn note_layout(&mut self, bytes: usize)
        ensures
            *final(self) == old(self).laid_out(bytes),
    {
        self.metrics.line_layout_builds = self.metrics.line_layout_builds.saturating_add(1);
        self.metrics.line_layout_bytes = self.metrics.line_layout_bytes.saturating_add(bytes);
    }
}

/// The occurrences that count: all but an empty match behind the last line feed.
pub open spec fn genuine(bytes: Seq<u8>, found: Seq<(usize, usize)>) -> Seq<(usize, usize)>
    decreases found.len(),
{
    if found.len() == 0 {
        Seq::empty()
    } else {
        let before = genuine(bytes, found.drop_last());
        if layout::synthetic(bytes, found.last().0 as int, found.last().1 as int) {
            before
        } else {
            before.push(found.last())
        }
    }
}

/// The control after these occurrences.
pub open spec fn examined_all(control: SinkControl, occurrences: Seq<(usize, usize)>) -> SinkControl
    decreases occurrences.len(),
{
    if occurrences.len() == 0 {
        control
    } else {
        examined_all(control, occurrences.drop_last()).examined(
            (occurrences.last().1 - occurrences.last().0) as usize,
        )
    }
}

/// Finding out whether there is an occurrence.
#[derive(Clone, Copy, Debug, PartialEq, Eq, Structural)]
pub struct ExistsSink {
    pub control: SinkControl,
    pub matched: bool,
}

impl ExistsSink {
    /// The state after a block with these occurrences.
    pub open spec fn after(self, bytes: Seq<u8>, found: Seq<(usize, usize)>) -> Self {
        let occurrences = genuine(bytes, found);
        if occurrences.len() == 0 {
            ExistsSink { control: self.control.entered(), matched: self.matched }
        } else {
            ExistsSink {
                control: self.control.entered().examined(
                    (occurrences[0].1 - occurrences[0].0) as usize,
                ),
                matched: true,
            }
        }
    }

    /// Looks at a block and tells whether to go on: the first occurrence settles it.
    pub fn matched<W: WorkCheckpoint>(&mut self, matcher: &GrepMatcher, bytes: &[u8], work: &W) -> (
        result: Result<bool, SinkInterrupt>)
        ensures
            match result {
                Ok(goes_on) => {
                    &&& *final(self) == old(self).after(bytes@, matcher.found_in(bytes@))
                    &&& goes_on == !final(self).matched
                },
                Err(SinkInterrupt::Stopped(stop)) => work.stops_with(stop) && !work.never_stops(),
                Err(SinkInterrupt::Fault(_)) => false,
            },
    {
        if let Err(stop) = self.control.sink_match_checkpoint(work) {
            return Err(SinkInterrupt::Stopped(stop));
        }
        let ghost entered = *self;
        let found = matcher.occurrences(bytes);
        let mut index: usize = 0;
        while index < found.len()
            invariant
                index <= found.len(),
                matcher::occurrences_in_order(found@, bytes@.len() as int),
                *self == entered,
                entered.control == old(self).control.entered(),
                entered.matched == old(self).matched,
                found@ == matcher.found_in(bytes@),
                genuine(bytes@, found@.take(index as int)).len() == 0,
            decreases found.len() - index,
        {
            let (start, end) = found[index];
            proof {
                assert(found@.take(index + 1).drop_last() =~= found@.take(index as int));
                assert(found@.take(index + 1).last() == found@[index as int]);
            }
            if !is_synthetic_trailing_empty(bytes, start, end) {
                proof {
                    genuine_grows(bytes@, found@.take(index + 1), found@);
                    let now = genuine(bytes@, found@.take(index + 1));
                    assert(now[0] == found@[index as int]);
                    assert(genuine(bytes@, found@).take(1)[0] == now[0]);
                }
                if let Err(stop) = self.control.occurrence_checkpoint(end - start, work) {
                    return Err(SinkInterrupt::Stopped(stop));
                }
                self.matched = true;
                return Ok(false);
            }
            index += 1;
        }
        assert(found@.take(found@.len() as int) =~= found@);
        Ok(!self.matched)
    }
}

/// Of a longer list of occurrences, those that count begin with those of the shorter one.
pub proof fn genuine_grows(bytes: Seq<u8>, short: Seq<(usize, usize)>, long: Seq<(usize, usize)>)
    requires
        short.len() <= long.len(),
        short == long.take(short.len() as int),
    ensures
        genuine(bytes, short).len() <= genuine(bytes, long).len(),
        genuine(bytes, long).take(genuine(bytes, short).len() as int) == genuine(bytes, short),
    decreases long.len(),
{
    if short.len() == long.len() {
        assert(short =~= long);
        assert(genuine(bytes, long).take(genuine(bytes, long).len() as int) =~= genuine(bytes, long));
    } else {
        assert(short =~= long.drop_last().take(short.len() as int));
        genuine_grows(bytes, short, long.drop_last());
        assert(genuine(bytes, long).take(genuine(bytes, short).len() as int) =~= genuine(bytes, short));
    }
}

/// Those that count are occurrences in order.
pub proof fn genuine_in_order(bytes: Seq<u8>, found: Seq<(usize, usize)>, len: int)
    requires
        matcher::occurrences_in_order(found, len),
    ensures
        matcher::occurrences_in_order(genuine(bytes, found), len),
        genuine(bytes, found).len() <= found.len(),
        found.len() > 0 && genuine(bytes, found).len() > 0 ==> genuine(bytes, found).last().1
            <= found.last().1,
    decreases found.len(),
{
    if found.len() > 0 {
        genuine_in_order(bytes, found.drop_last(), len);
        let before = genuine(bytes, found.drop_last());
        if found.drop_last().len() > 0 {
            assert(found.drop_last().last() == found[found.len() - 2]);
        }
        if !layout::synthetic(bytes, found.last().0 as int, found.last().1 as int) {
            assert forall|i: int, j: int| 0 <= i < j < genuine(bytes, found).len() implies (
            #[trigger] genuine(bytes, found)[i]).1 <= (#[trigger] genuine(bytes, found)[j]).0 by {
                if j == before.len() {
                    assert(before[i].1 <= before.last().1) by {
                        if i < before.len() - 1 {
                            assert(before[i].1 <= before[before.len() - 1].0);
                        }
                    }
                }
            }
        }
    }
}

/// Counting the occurrences.
#[derive(Clone, Copy, Debug, PartialEq, Eq, Structural)]
pub struct CountSink {
    pub control: SinkControl,
    pub occurrence_total: usize,
}

impl CountSink {
    /// The state after a block with these occurrences; a fault when the count is past the last
    /// number.
    pub open spec fn after(self, bytes: Seq<u8>, found: Seq<(usize, usize)>) -> Result<
        Self,
        SinkFault,
    > {
        let occurrences = genuine(bytes, found);
        if self.occurrence_total + occurrences.len() > usize::MAX {
            Err(SinkFault::CountOverflow)
        } else {
            Ok(
                CountSink {
                    control: examined_all(self.control.entered(), occurrences),
                    occurrence_total: (self.occurrence_total + occurrences.len()) as usize,
                },
            )
        }
    }

    /// Counts the occurrences of a block.
    pub fn matched<W: WorkCheckpoint>(&mut self, matcher: &GrepMatcher, bytes: &[u8], work: &W) -> (
        result: Result<bool, SinkInterrupt>)
        ensures
            match result {
                Ok(goes_on) => {
                    &&& goes_on
                    &&& old(self).after(bytes@, matcher.found_in(bytes@)) == Ok::<Self, SinkFault>(
                        *final(self),
                    )
                },
                Err(SinkInterrupt::Stopped(stop)) => work.stops_with(stop) && !work.never_stops(),
                Err(SinkInterrupt::Fault(fault)) => old(self).after(
                    bytes@,
                    matcher.found_in(bytes@),
                ) == Err::<Self, SinkFault>(fault),
            },
    {
        if let Err(stop) = self.control.sink_match_checkpoint(work) {
            return Err(SinkInterrupt::Stopped(stop));
        }
        let ghost entered = *self;
        let found = matcher.occurrences(bytes);
        let mut index: usize = 0;
        while index < found.len()
            invariant
                index <= found.len(),
                matcher::occurrences_in_order(found@, bytes@.len() as int),
                entered.control == old(self).control.entered(),
                entered.occurrence_total == old(self).occurrence_total,
                found@ == matcher.found_in(bytes@),
                self.control == examined_all(
                    entered.control,
                    genuine(bytes@, found@.take(index as int)),
                ),
                self.occurrence_total == entered.occurrence_total + genuine(
                    bytes@,
                    found@.take(index as int),
                ).len(),
            decreases found.len() - index,
        {
            let (start, end) = found[index];
            let ghost before = genuine(bytes@, found@.take(index as int));
            proof {
                assert(found@.take(index + 1).drop_last() =~= found@.take(index as int));
                assert(found@.take(index + 1).last() == found@[index as int]);
            }
            if !is_synthetic_trailing_empty(bytes, start, end) {
                let ghost now = genuine(bytes@, found@.take(index + 1));
                assert(now.drop_last() =~= before);
                if let Err(stop) = self.control.occurrence_checkpoint(end - start, work) {
                    return Err(SinkInterrupt::Stopped(stop));
                }
                if self.occurrence_total == usize::MAX {
                    proof {
                        genuine_grows(bytes@, found@.take(index + 1), found@);
                    }
                    return Err(SinkInterrupt::Fault(SinkFault::CountOverflow));
                }
                self.occurrence_total = self.occurrence_total + 1;
            }
            index += 1;
        }
        assert(found@.take(found@.len() as int) =~= found@);
        Ok(true)
    }
}

} // verus!
