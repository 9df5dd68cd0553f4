//! Ranges of lines: the context around a match, and ranges that touch as one.

use crate::grep::layout;
use vstd::prelude::*;

verus! {

/// Whether a range comes before another: by its begin, then by its end.
pub open spec fn range_less(left: (u64, u64), right: (u64, u64)) -> bool {
    left.0 < right.0 || (left.0 == right.0 && left.1 < right.1)
}

/// Ordered ranges with one more.
pub open spec fn with_range(ranges: Seq<(u64, u64)>, more: (u64, u64)) -> Seq<(u64, u64)>
    decreases ranges.len(),
{
    if ranges.len() == 0 || !range_less(more, ranges.last()) {
        ranges.push(more)
    } else {
        with_range(ranges.drop_last(), more).push(ranges.last())
    }
}

/// The ranges in order.
pub open spec fn ordered(ranges: Seq<(u64, u64)>) -> Seq<(u64, u64)>
    decreases ranges.len(),
{
    if ranges.len() == 0 {
        Seq::empty()
    } else {
        with_range(ordered(ranges.drop_last()), ranges.last())
    }
}

/// A number, one on.
pub open spec fn next(line: u64) -> u64 {
    if line == u64::MAX {
        line
    } else {
        (line + 1) as u64
    }
}

/// Merged ranges with one more that begins no earlier: where it touches the last one, both are
/// one.
pub open spec fn joined_with(merged: Seq<(u64, u64)>, more: (u64, u64)) -> Seq<(u64, u64)> {
    if merged.len() > 0 && more.0 <= next(merged.last().1) {
        merged.drop_last().push(
            (
                merged.last().0,
                if merged.last().1 < more.1 {
                    more.1
                } else {
                    merged.last().1
                },
            ),
        )
    } else {
        merged.push(more)
    }
}

/// Ordered ranges, those that touch as one.
pub open spec fn merged_in_order(ranges: Seq<(u64, u64)>) -> Seq<(u64, u64)>
    decreases ranges.len(),
{
    if ranges.len() == 0 {
        Seq::empty()
    } else {
        joined_with(merged_in_order(ranges.drop_last()), ranges.last())
    }
}

/// The ranges in order, those that touch as one.
pub open spec fn merged(ranges: Seq<(u64, u64)>) -> Seq<(u64, u64)> {
    merged_in_order(ordered(ranges))
}

proof fn with_range_at(ranges: Seq<(u64, u64)>, more: (u64, u64), at: int)
    requires
        0 <= at <= ranges.len(),
        forall|i: int| at <= i < ranges.len() ==> range_less(more, #[trigger] ranges[i]),
        at > 0 ==> !range_less(more, ranges[at - 1]),
    ensures
        with_range(ranges, more) == ranges.take(at).push(more) + ranges.skip(at),
    decreases ranges.len(),
{
    if at == ranges.len() {
        assert(ranges.take(at).push(more) + ranges.skip(at) =~= ranges.push(more));
    } else {
        let rest = ranges.drop_last();
        assert(range_less(more, ranges[ranges.len() - 1]));
        assert forall|i: int| at <= i < rest.len() implies range_less(more, #[trigger] rest[i]) by {
            assert(rest[i] == ranges[i]);
        }
        with_range_at(rest, more, at);
        assert((rest.take(at).push(more) + rest.skip(at)).push(ranges.last()) =~= ranges.take(
            at,
        ).push(more) + ranges.skip(at));
    }
}

/// Puts the ranges in order, those that touch as one.
pub fn merge_ranges(ranges: &Vec<(u64, u64)>) -> (result: Vec<(u64, u64)>)
    ensures
        result@ == merged(ranges@),
{
    let mut sorted: Vec<(u64, u64)> = Vec::new();
    let mut index: usize = 0;
    while index < ranges.len()
        invariant
            index <= ranges.len(),
            sorted@ == ordered(ranges@.take(index as int)),
        decreases ranges.len() - index,
    {
        let range = ranges[index];
        let ghost before = sorted@;
        let mut at: usize = sorted.len();
        while at > 0 && (range.0 < sorted[at - 1].0 || (range.0 == sorted[at - 1].0 && range.1
            < sorted[at - 1].1))
            invariant
                at <= sorted@.len(),
                sorted@ == before,
                forall|i: int| at <= i < before.len() ==> range_less(range, #[trigger] before[i]),
            decreases at,
        {
            at -= 1;
        }
        proof {
            with_range_at(before, range, at as int);
            assert(ranges@.take(index + 1).drop_last() =~= ranges@.take(index as int));
            assert(ranges@.take(index + 1).last() == range);
        }
        sorted.insert(at, range);
        assert(sorted@ =~= before.take(at as int).push(range) + before.skip(at as int));
        index += 1;
    }
    assert(ranges@.take(ranges@.len() as int) =~= ranges@);
    let mut result: Vec<(u64, u64)> = Vec::new();
    let mut next_index: usize = 0;
    while next_index < sorted.len()
        invariant
            next_index <= sorted.len(),
            result@ == merged_in_order(sorted@.take(next_index as int)),
        decreases sorted.len() - next_index,
    {
        let range = sorted[next_index];
        let ghost before = result@;
        proof {
            assert(sorted@.take(next_index + 1).drop_last() =~= sorted@.take(next_index as int));
            assert(sorted@.take(next_index + 1).last() == range);
        }
        let count = result.len();
        if count > 0 && range.0 <= result[count - 1].1.saturating_add(1) {
            let last = result[count - 1];
            let reached = if last.1 < range.1 {
                range.1
            } else {
                last.1
            };
            result.set(count - 1, (last.0, reached));
            assert(result@ =~= before.drop_last().push((last.0, reached)));
        } else {
            result.push(range);
        }
        next_index += 1;
    }
    assert(sorted@.take(sorted@.len() as int) =~= sorted@);
    result
}

/// Whether ranges are ordered by their begins.
spec fn begins_ascend(ranges: Seq<(u64, u64)>) -> bool {
    forall|i: int, j: int|
        0 <= i <= j < ranges.len() ==> (#[trigger] ranges[i]).0 <= (#[trigger] ranges[j]).0
}

proof fn with_range_keeps(ranges: Seq<(u64, u64)>, more: (u64, u64))
    requires
        begins_ascend(ranges),
    ensures
        begins_ascend(with_range(ranges, more)),
        with_range(ranges, more).len() == ranges.len() + 1,
        forall|range: (u64, u64)| #[trigger]
            with_range(ranges, more).contains(range) <==> ranges.contains(range) || range == more,
        ranges.len() > 0 ==> with_range(ranges, more).last().0 <= layout::greater(
            ranges.last().0 as int,
            more.0 as int,
        ),
        ranges.len() == 0 ==> with_range(ranges, more).last() == more,
    decreases ranges.len(),
{
    let added = with_range(ranges, more);
    if ranges.len() == 0 || !range_less(more, ranges.last()) {
        assert forall|range: (u64, u64)| #[trigger] added.contains(range) <==> ranges.contains(
            range,
        ) || range == more by {
            if ranges.contains(range) {
                let i = ranges.index_of(range);
                assert(added[i] == range);
            }
            assert(added[ranges.len() as int] == more);
        }
        assert forall|i: int, j: int| 0 <= i <= j < added.len() implies (#[trigger] added[i]).0
            <= (#[trigger] added[j]).0 by {
            if j == ranges.len() && i < ranges.len() {
                assert(ranges[i].0 <= ranges[ranges.len() - 1].0);
            }
        }
    } else {
        let rest = ranges.drop_last();
        let last = ranges.last();
        assert(begins_ascend(rest)) by {
            assert forall|i: int, j: int| 0 <= i <= j < rest.len() implies (#[trigger] rest[i]).0
                <= (#[trigger] rest[j]).0 by {
                assert(ranges[i].0 <= ranges[j].0);
            }
        }
        with_range_keeps(rest, more);
        let inner = with_range(rest, more);
        if rest.len() > 0 {
            assert(rest.last() == ranges[ranges.len() - 2]);
            assert(ranges[ranges.len() - 2].0 <= ranges[ranges.len() - 1].0);
        }
        assert(inner.last().0 <= last.0);
        assert forall|i: int, j: int| 0 <= i <= j < added.len() implies (#[trigger] added[i]).0
            <= (#[trigger] added[j]).0 by {
            if j == inner.len() && i < inner.len() {
                assert(inner[i].0 <= inner[inner.len() - 1].0);
            }
        }
        assert forall|range: (u64, u64)| #[trigger] added.contains(range) <==> ranges.contains(
            range,
        ) || range == more by {
            if added.contains(range) {
                let i = added.index_of(range);
                if i < inner.len() {
                    assert(inner[i] == range);
                    assert(inner.contains(range));
                    if rest.contains(range) {
                        let k = rest.index_of(range);
                        assert(ranges[k] == range);
                    }
                } else {
                    assert(ranges[ranges.len() - 1] == range);
                }
            }
            if ranges.contains(range) {
                let k = ranges.index_of(range);
                if k < rest.len() {
                    assert(rest[k] == range);
                    assert(inner.contains(range));
                    let i = inner.index_of(range);
                    assert(added[i] == range);
                } else {
                    assert(added[inner.len() as int] == range);
                }
            }
            if range == more {
                assert(inner.contains(range));
                let i = inner.index_of(range);
                assert(added[i] == range);
            }
        }
    }
}

proof fn ordered_keeps(ranges: Seq<(u64, u64)>)
    ensures
        begins_ascend(ordered(ranges)),
        ordered(ranges).len() == ranges.len(),
        forall|range: (u64, u64)| #[trigger]
            ordered(ranges).contains(range) <==> ranges.contains(range),
    decreases ranges.len(),
{
    if ranges.len() > 0 {
        let rest = ranges.drop_last();
        ordered_keeps(rest);
        with_range_keeps(ordered(rest), ranges.last());
        assert forall|range: (u64, u64)| #[trigger] ordered(ranges).contains(range)
            <==> ranges.contains(range) by {
            if ranges.contains(range) {
                let k = ranges.index_of(range);
                if k < rest.len() {
                    assert(rest[k] == range);
                }
            }
            if rest.contains(range) {
                let k = rest.index_of(range);
                assert(ranges[k] == range);
            }
            assert(ranges[ranges.len() - 1] == ranges.last());
        }
    }
}

/// Ranges with one more hold its lines too.
proof fn push_holds(ranges: Seq<(u64, u64)>, more: (u64, u64), line: u64)
    ensures
        layout::holds_line(ranges.push(more), line) <==> layout::holds_line(ranges, line) || more.0
            <= line <= more.1,
{
    let added = ranges.push(more);
    if layout::holds_line(ranges, line) {
        let i = choose|i: int|
            0 <= i < ranges.len() && (#[trigger] ranges[i]).0 <= line <= ranges[i].1;
        assert(added[i].0 <= line <= added[i].1);
    }
    if more.0 <= line <= more.1 {
        assert(added[ranges.len() as int].0 <= line <= added[ranges.len() as int].1);
    }
    if layout::holds_line(added, line) && !(more.0 <= line <= more.1) {
        let i = choose|i: int|
            0 <= i < added.len() && (#[trigger] added[i]).0 <= line <= added[i].1;
        assert(ranges[i].0 <= line <= ranges[i].1);
    }
}

proof fn merged_in_order_keeps(ranges: Seq<(u64, u64)>, line: u64)
    requires
        begins_ascend(ranges),
    ensures
        layout::holds_line(merged_in_order(ranges), line) <==> layout::holds_line(ranges, line),
        ranges.len() > 0 ==> merged_in_order(ranges).len() > 0 && merged_in_order(ranges).last().0
            <= ranges.last().0,
    decreases ranges.len(),
{
    if ranges.len() > 0 {
        let rest = ranges.drop_last();
        let more = ranges.last();
        assert(begins_ascend(rest)) by {
            assert forall|i: int, j: int| 0 <= i <= j < rest.len() implies (#[trigger] rest[i]).0
                <= (#[trigger] rest[j]).0 by {
                assert(ranges[i].0 <= ranges[j].0);
            }
        }
        merged_in_order_keeps(rest, line);
        let before = merged_in_order(rest);
        assert(rest.push(more) =~= ranges);
        push_holds(rest, more, line);
        if before.len() > 0 && more.0 <= next(before.last().1) {
            let last = before.last();
            let kept = before.drop_last();
            let reached = (
                last.0,
                if last.1 < more.1 {
                    more.1
                } else {
                    last.1
                },
            );
            assert(kept.push(last) =~= before);
            push_holds(kept, last, line);
            push_holds(kept, reached, line);
            if rest.len() > 0 {
                assert(rest.last() == ranges[ranges.len() - 2]);
                assert(ranges[ranges.len() - 2].0 <= ranges[ranges.len() - 1].0);
            }
        } else {
            push_holds(before, more, line);
        }
    } else {
        assert(merged_in_order(ranges) =~= ranges);
    }
}

/// Merging keeps the lines: a line lies in one of the merged ranges exactly when it lies in one
/// of the ranges.
pub proof fn merging_keeps_lines(ranges: Seq<(u64, u64)>, line: u64)
    ensures
        layout::holds_line(merged(ranges), line) <==> layout::holds_line(ranges, line),
{
    let sorted = ordered(ranges);
    ordered_keeps(ranges);
    merged_in_order_keeps(sorted, line);
    if layout::holds_line(ranges, line) {
        let i = choose|i: int|
            0 <= i < ranges.len() && (#[trigger] ranges[i]).0 <= line <= ranges[i].1;
        assert(ranges.contains(ranges[i]));
        assert(sorted.contains(ranges[i]));
        let k = sorted.index_of(ranges[i]);
        assert(sorted[k].0 <= line <= sorted[k].1);
    }
    if layout::holds_line(sorted, line) {
        let k = choose|k: int|
            0 <= k < sorted.len() && (#[trigger] sorted[k]).0 <= line <= sorted[k].1;
        assert(sorted.contains(sorted[k]));
        assert(ranges.contains(sorted[k]));
        let i = ranges.index_of(sorted[k]);
        assert(ranges[i].0 <= line <= ranges[i].1);
    }
}

proof fn merged_in_order_apart(ranges: Seq<(u64, u64)>)
    requires
        begins_ascend(ranges),
        forall|i: int| 0 <= i < ranges.len() ==> (#[trigger] ranges[i]).0 <= ranges[i].1,
    ensures
        layout::apart(merged_in_order(ranges)),
        gaps_between(merged_in_order(ranges)),
        merged_in_order(ranges).len() > 0 ==> merged_in_order(ranges).last().0
            <= ranges.last().0,
    decreases ranges.len(),
{
    if ranges.len() > 0 {
        let rest = ranges.drop_last();
        let more = ranges.last();
        assert forall|i: int, j: int| 0 <= i <= j < rest.len() implies (#[trigger] rest[i]).0 <= (
        #[trigger] rest[j]).0 by {
            assert(ranges[i].0 <= ranges[j].0);
        }
        assert forall|i: int| 0 <= i < rest.len() implies (#[trigger] rest[i]).0 <= rest[i].1 by {
            assert(ranges[i].0 <= ranges[i].1);
        }
        merged_in_order_apart(rest);
        let before = merged_in_order(rest);
        let now = merged_in_order(ranges);
        assert(ranges[ranges.len() - 1].0 <= ranges[ranges.len() - 1].1);
        if rest.len() > 0 {
            assert(ranges[ranges.len() - 2].0 <= ranges[ranges.len() - 1].0);
        }
        let kept = if before.len() > 0 && more.0 <= next(before.last().1) {
            before.drop_last()
        } else {
            before
        };
        assert forall|i: int| 0 <= i < kept.len() implies #[trigger] now[i] == before[i] by {}
        assert forall|i: int| 0 <= i < now.len() implies (#[trigger] now[i]).0 <= now[i].1 by {
            if i < before.len() {
                assert(before[i].0 <= before[i].1);
            }
        }
        assert forall|i: int, j: int| 0 <= i < j < now.len() implies next((#[trigger] now[i]).1) < (
        #[trigger] now[j]).0 by {
            assert(now[i] == before[i]);
            if j < kept.len() {
                assert(now[j] == before[j]);
                assert(next(before[i].1) < before[j].0);
            } else if kept.len() < before.len() {
                assert(next(before[i].1) < before[before.len() - 1].0);
            } else if i < before.len() - 1 {
                assert(next(before[i].1) < before[before.len() - 1].0);
                assert(before[before.len() - 1].0 <= before[before.len() - 1].1);
            }
        }
        assert forall|i: int, j: int| 0 <= i < j < now.len() implies (#[trigger] now[i]).1 < (
        #[trigger] now[j]).0 by {
            assert(next(now[i].1) < now[j].0);
        }
    }
}

/// Whether at least one line lies between each range and the next.
pub open spec fn gaps_between(ranges: Seq<(u64, u64)>) -> bool {
    forall|i: int, j: int|
        0 <= i < j < ranges.len() ==> next((#[trigger] ranges[i]).1) < (#[trigger] ranges[j]).0
}

/// Merged ranges rise, with a gap between each and the next: what touched is one range.
pub proof fn merged_ranges_are_apart(ranges: Seq<(u64, u64)>)
    requires
        forall|i: int| 0 <= i < ranges.len() ==> (#[trigger] ranges[i]).0 <= ranges[i].1,
    ensures
        layout::apart(merged(ranges)),
        gaps_between(merged(ranges)),
{
    let sorted = ordered(ranges);
    ordered_keeps(ranges);
    assert forall|i: int| 0 <= i < sorted.len() implies (#[trigger] sorted[i]).0 <= sorted[i].1 by {
        assert(sorted.contains(sorted[i]));
        assert(ranges.contains(sorted[i]));
        let k = ranges.index_of(sorted[i]);
        assert(ranges[k].0 <= ranges[k].1);
    }
    merged_in_order_apart(sorted);
}

/// Ranges that can be asked for lines.
pub struct LineRanges {
    ranges: Vec<(u64, u64)>,
}

impl LineRanges {
    /// The ranges.
    pub closed spec fn ranges(&self) -> Seq<(u64, u64)> {
        self.ranges@
    }

    /// Whether each range ends before the next one begins.
    pub closed spec fn wf(&self) -> bool {
        layout::apart(self.ranges@)
    }

    /// Takes merged ranges.
    pub fn new(ranges: Vec<(u64, u64)>) -> (held: Self)
        requires
            layout::apart(ranges@),
        ensures
            held.wf(),
            held.ranges() == ranges@,
    {
        LineRanges { ranges }
    }

    /// Whether one of the ranges holds a line.
    pub fn ranges_contain(&self, line: u64) -> (found: bool)
        requires
            self.wf(),
        ensures
            found == layout::holds_line(self.ranges(), line),
    {
        let mut low: usize = 0;
        let mut high: usize = self.ranges.len();
        while low < high
            invariant
                self.wf(),
                low <= high <= self.ranges@.len(),
                forall|i: int| 0 <= i < low ==> (#[trigger] self.ranges@[i]).1 < line,
                forall|i: int|
                    high <= i < self.ranges@.len() ==> (#[trigger] self.ranges@[i]).1 >= line,
            decreases high - low,
        {
            let middle: usize = low + (high - low) / 2;
            if self.ranges[middle].1 < line {
                proof {
                    assert forall|i: int| 0 <= i < middle + 1 implies (
                    #[trigger] self.ranges@[i]).1 < line by {
                        if i < middle {
                            assert(self.ranges@[i].1 < self.ranges@[middle as int].0);
                            assert(self.ranges@[middle as int].0 <= self.ranges@[middle as int].1);
                        }
                    }
                }
                low = middle + 1;
            } else {
                proof {
                    assert forall|i: int| middle <= i < self.ranges@.len() implies (
                    #[trigger] self.ranges@[i]).1 >= line by {
                        if i > middle {
                            assert(self.ranges@[middle as int].1 < self.ranges@[i].0);
                            assert(self.ranges@[i].0 <= self.ranges@[i].1);
                        }
                    }
                }
                high = middle;
            }
        }
        if low < self.ranges.len() {
            let range = self.ranges[low];
            proof {
                if layout::holds_line(self.ranges@, line) {
                    let i = choose|i: int|
                        0 <= i < self.ranges@.len() && (#[trigger] self.ranges@[i]).0 <= line
                            <= self.ranges@[i].1;
                    assert(i >= low);
                    if i > low {
                        assert(self.ranges@[low as int].1 < self.ranges@[i].0);
                    }
                }
            }
            range.0 <= line && line <= range.1
        } else {
            false
        }
    }
}

/// The lines around a match: so many before it, but none before the first line, and so many after
/// it, but none past the last.
pub open spec fn around(start: u64, end: u64, before: usize, after: usize, total: usize) -> (
    u64,
    u64,
) {
    (
        if start <= before {
            1
        } else {
            (start - before) as u64
        },
        if end + after > total {
            total as u64
        } else {
            (end + after) as u64
        },
    )
}

/// The lines around a match.
pub fn context_range(start: u64, end: u64, before: usize, after: usize, total: usize) -> (range: (
    u64,
    u64,
))
    ensures
        range == around(start, end, before, after, total),
{
    let first = start.saturating_sub(before as u64);
    let last = end.saturating_add(after as u64);
    (
        if first < 1 {
            1
        } else {
            first
        },
        if last > total as u64 {
            total as u64
        } else {
            last
        },
    )
}

} // verus!
