//! Line feeds in byte content.

use vstd::prelude::*;

verus! {

/// The number of line feeds.
pub open spec fn line_feeds(bytes: Seq<u8>) -> nat
    decreases bytes.len(),
{
    if bytes.len() == 0 {
        0
    } else {
        line_feeds(bytes.drop_last()) + if bytes.last() == 10 {
            1nat
        } else {
            0nat
        }
    }
}

/// The line feeds of two parts add up.
pub proof fn line_feeds_concat(left: Seq<u8>, right: Seq<u8>)
    ensures
        line_feeds(left + right) == line_feeds(left) + line_feeds(right),
    decreases right.len(),
{
    if right.len() == 0 {
        assert(left + right =~= left);
    } else {
        assert((left + right).drop_last() =~= left + right.drop_last());
        line_feeds_concat(left, right.drop_last());
    }
}

/// No more line feeds than bytes.
pub proof fn line_feeds_bounded(bytes: Seq<u8>)
    ensures
        line_feeds(bytes) <= bytes.len(),
    decreases bytes.len(),
{
    if bytes.len() > 0 {
        line_feeds_bounded(bytes.drop_last());
    }
}

/// Counts the line feeds among the first `end` bytes.
pub fn count_line_feeds(bytes: &[u8], end: usize) -> (count: usize)
    requires
        end <= bytes.len(),
    ensures
        count == line_feeds(bytes@.take(end as int)),
        count <= end,
{
    let mut count: usize = 0;
    let mut index: usize = 0;
    while index < end
        invariant
            index <= end <= bytes.len(),
            count <= index,
            count == line_feeds(bytes@.take(index as int)),
        decreases end - index,
    {
        proof {
            assert(bytes@.take(index + 1).drop_last() =~= bytes@.take(index as int));
            assert(bytes@.take(index + 1).last() == bytes@[index as int]);
        }
        if bytes[index] == 10 {
            count += 1;
        }
        index += 1;
    }
    count
}

} // verus!
