//! A deterministic order of entries by number and byte strings.

use crate::text::same_bytes;
use vstd::prelude::*;

verus! {

/// Whether the first difference makes `left` the smaller one, or `left` is a proper prefix.
pub open spec fn bytes_less(left: Seq<u8>, right: Seq<u8>) -> bool
    decreases left.len(),
{
    if right.len() == 0 {
        false
    } else if left.len() == 0 {
        true
    } else if left[0] != right[0] {
        left[0] < right[0]
    } else {
        bytes_less(left.drop_first(), right.drop_first())
    }
}

/// What entries are ordered by: a number, then two byte strings.
#[derive(Debug)]
pub struct SortKey {
    pub rank: i128,
    pub first: Vec<u8>,
    pub second: Vec<u8>,
}

/// The mathematical value of a [`SortKey`].
pub struct KeySpec {
    pub rank: int,
    pub first: Seq<u8>,
    pub second: Seq<u8>,
}

impl View for SortKey {
    type V = KeySpec;

    open spec fn view(&self) -> KeySpec {
        KeySpec { rank: self.rank as int, first: self.first@, second: self.second@ }
    }
}

/// The mathematical values of keys.
pub open spec fn key_views(keys: Seq<SortKey>) -> Seq<KeySpec> {
    keys.map(|i: int, key: SortKey| key@)
}

/// Whether a key comes before another.
pub open spec fn key_less(left: KeySpec, right: KeySpec) -> bool {
    if left.rank != right.rank {
        left.rank < right.rank
    } else if left.first != right.first {
        bytes_less(left.first, right.first)
    } else {
        bytes_less(left.second, right.second)
    }
}

/// Whether entry `i` comes before entry `j`: by key, and among equal keys by position.
pub open spec fn entry_less(keys: Seq<KeySpec>, i: int, j: int) -> bool {
    if keys[i] != keys[j] {
        key_less(keys[i], keys[j])
    } else {
        i < j
    }
}

/// Whether positions list every entry once, in order.
pub open spec fn is_order(keys: Seq<KeySpec>, order: Seq<usize>) -> bool {
    &&& order.len() == keys.len()
    &&& order.no_duplicates()
    &&& forall|i: int| 0 <= i < order.len() ==> (#[trigger] order[i]) < keys.len()
    &&& forall|i: int, j: int|
        0 <= i < j < order.len() ==> entry_less(
            keys,
            #[trigger] order[i] as int,
            #[trigger] order[j] as int,
        )
}

/// Byte order is total: of two different strings one is smaller, and never both.
pub proof fn bytes_less_total(left: Seq<u8>, right: Seq<u8>)
    ensures
        left != right ==> bytes_less(left, right) || bytes_less(right, left),
        !(bytes_less(left, right) && bytes_less(right, left)),
        !bytes_less(left, left),
    decreases left.len(),
{
    if left.len() == 0 {
        if right.len() == 0 {
            assert(left =~= right);
        }
    } else if right.len() > 0 {
        bytes_less_total(left.drop_first(), right.drop_first());
        if left[0] == right[0] && left.drop_first() == right.drop_first() {
            assert(left =~= seq![left[0]] + left.drop_first());
            assert(right =~= seq![right[0]] + right.drop_first());
        }
        bytes_less_irreflexive(left);
    } else {
        bytes_less_irreflexive(left);
    }
}

proof fn bytes_less_irreflexive(bytes: Seq<u8>)
    ensures
        !bytes_less(bytes, bytes),
    decreases bytes.len(),
{
    if bytes.len() > 0 {
        bytes_less_irreflexive(bytes.drop_first());
    }
}

/// Byte order is transitive.
pub proof fn bytes_less_transitive(first: Seq<u8>, second: Seq<u8>, third: Seq<u8>)
    requires
        bytes_less(first, second),
        bytes_less(second, third),
    ensures
        bytes_less(first, third),
    decreases first.len(),
{
    if first.len() > 0 && first[0] == second[0] && second[0] == third[0] {
        bytes_less_transitive(first.drop_first(), second.drop_first(), third.drop_first());
    }
}

proof fn key_less_total(left: KeySpec, right: KeySpec)
    ensures
        left != right ==> key_less(left, right) || key_less(right, left),
        !(key_less(left, right) && key_less(right, left)),
        !key_less(left, left),
{
    bytes_less_total(left.first, right.first);
    bytes_less_total(left.second, right.second);
}

proof fn key_less_transitive(first: KeySpec, second: KeySpec, third: KeySpec)
    requires
        key_less(first, second),
        key_less(second, third),
    ensures
        key_less(first, third),
{
    if first.rank == second.rank && second.rank == third.rank {
        if first.first != second.first && second.first != third.first {
            bytes_less_transitive(first.first, second.first, third.first);
            bytes_less_total(first.first, third.first);
        } else if first.first == second.first && second.first == third.first {
            bytes_less_transitive(first.second, second.second, third.second);
        }
    }
}

proof fn entry_less_transitive(keys: Seq<KeySpec>, i: int, j: int, k: int)
    requires
        entry_less(keys, i, j),
        entry_less(keys, j, k),
    ensures
        entry_less(keys, i, k),
{
    if keys[i] != keys[j] && keys[j] != keys[k] {
        key_less_transitive(keys[i], keys[j], keys[k]);
        key_less_total(keys[i], keys[j]);
        key_less_total(keys[i], keys[k]);
    }
}

/// There is only one order: two orders of the same entries agree.
pub proof fn order_is_unique(keys: Seq<KeySpec>, left: Seq<usize>, right: Seq<usize>)
    requires
        is_order(keys, left),
        is_order(keys, right),
    ensures
        left == right,
{
    assert forall|i: int| 0 <= i < left.len() implies left[i] == right[i] by {
        order_position(keys, left, right, i);
    }
    assert(left =~= right);
}

proof fn order_position(keys: Seq<KeySpec>, left: Seq<usize>, right: Seq<usize>, at: int)
    requires
        is_order(keys, left),
        is_order(keys, right),
        0 <= at < left.len(),
    ensures
        left[at] == right[at],
    decreases at,
{
    assert forall|i: int| 0 <= i < at implies left[i] == right[i] by {
        order_position(keys, left, right, i);
    }
    order_covers(keys, left, right[at]);
    order_covers(keys, right, left[at]);
    let in_left = choose|i: int| 0 <= i < left.len() && left[i] == right[at];
    let in_right = choose|i: int| 0 <= i < right.len() && right[i] == left[at];
    if left[at] != right[at] {
        if in_left < at {
            assert(right[in_left] == right[at]);
        }
        if in_right < at {
            assert(left[in_right] == left[at]);
        }
        assert(entry_less(keys, left[at] as int, left[in_left] as int));
        assert(entry_less(keys, right[at] as int, right[in_right] as int));
        key_less_total(keys[left[at] as int], keys[right[at] as int]);
    }
}

proof fn order_covers(keys: Seq<KeySpec>, order: Seq<usize>, entry: usize)
    requires
        is_order(keys, order),
        entry < keys.len(),
    ensures
        exists|i: int| 0 <= i < order.len() && order[i] == entry,
{
    let positions = order.map(|i: int, at: usize| at as int);
    let all = Set::<int>::range(0, keys.len() as int);
    assert(positions.no_duplicates()) by {
        assert forall|i: int, j: int|
            0 <= i < positions.len() && 0 <= j < positions.len() && i != j implies positions[i]
            != positions[j] by {
            assert(order[i] != order[j]);
        }
    }
    positions.unique_seq_to_set();
    vstd::set_lib::range_set_properties::<int>(0, keys.len() as int);
    assert(positions.to_set().subset_of(all)) by {
        assert forall|value: int| positions.to_set().contains(value) implies all.contains(value) by {
            let i = choose|i: int| 0 <= i < positions.len() && positions[i] == value;
            assert(order[i] < keys.len());
        }
    }
    vstd::set_lib::lemma_subset_equality(positions.to_set(), all);
    assert(positions.to_set().contains(entry as int));
    let i = choose|i: int| 0 <= i < positions.len() && positions[i] == entry as int;
    assert(order[i] == entry);
}

/// Whether the bytes of `left` come before those of `right`.
pub fn bytes_before(left: &[u8], right: &[u8]) -> (result: bool)
    ensures
        result == bytes_less(left@, right@),
{
    let mut index: usize = 0;
    assert(left@.skip(0) =~= left@);
    assert(right@.skip(0) =~= right@);
    while index < left.len() && index < right.len()
        invariant
            index <= left.len(),
            index <= right.len(),
            bytes_less(left@, right@) == bytes_less(
                left@.skip(index as int),
                right@.skip(index as int),
            ),
        decreases left.len() - index,
    {
        if left[index] != right[index] {
            return left[index] < right[index];
        }
        proof {
            assert(left@.skip(index as int).drop_first() =~= left@.skip(index + 1));
            assert(right@.skip(index as int).drop_first() =~= right@.skip(index + 1));
        }
        index += 1;
    }
    index < right.len()
}

fn key_before(left: &SortKey, right: &SortKey) -> (result: bool)
    ensures
        result == key_less(left@, right@),
{
    if left.rank != right.rank {
        left.rank < right.rank
    } else if !same_bytes(left.first.as_slice(), right.first.as_slice()) {
        bytes_before(left.first.as_slice(), right.first.as_slice())
    } else {
        bytes_before(left.second.as_slice(), right.second.as_slice())
    }
}

/// Whether entries ascend.
spec fn entries_ascend(keys: Seq<KeySpec>, order: Seq<usize>) -> bool {
    forall|i: int, j: int|
        0 <= i < j < order.len() ==> entry_less(
            keys,
            #[trigger] order[i] as int,
            #[trigger] order[j] as int,
        )
}

/// Whether entries lie in a range.
spec fn entries_within(order: Seq<usize>, low: int, high: int) -> bool {
    forall|i: int| 0 <= i < order.len() ==> low <= (#[trigger] order[i]) < high
}

/// Whether all of some entries come before the others from a position on.
spec fn all_before(keys: Seq<KeySpec>, done: Seq<usize>, rest: Seq<usize>, from: int) -> bool {
    forall|i: int, j: int|
        0 <= i < done.len() && from <= j < rest.len() ==> entry_less(
            keys,
            #[trigger] done[i] as int,
            #[trigger] rest[j] as int,
        )
}

proof fn next_comes_before(
    keys: Seq<KeySpec>,
    next: usize,
    rest: Seq<usize>,
    from: int,
)
    requires
        entries_ascend(keys, rest),
        0 <= from < rest.len(),
        entry_less(keys, next as int, rest[from] as int),
    ensures
        forall|j: int|
            from <= j < rest.len() ==> entry_less(keys, next as int, #[trigger] rest[j] as int),
{
    assert forall|j: int| from <= j < rest.len() implies entry_less(
        keys,
        next as int,
        #[trigger] rest[j] as int,
    ) by {
        if j > from {
            entry_less_transitive(keys, next as int, rest[from] as int, rest[j] as int);
        }
    }
}

fn merge_orders(keys: &Vec<SortKey>, left: Vec<usize>, right: Vec<usize>, middle: usize) -> (order:
    Vec<usize>)
    requires
        middle <= keys@.len(),
        entries_ascend(key_views(keys@), left@),
        entries_ascend(key_views(keys@), right@),
        entries_within(left@, 0, middle as int),
        entries_within(right@, middle as int, keys@.len() as int),
    ensures
        entries_ascend(key_views(keys@), order@),
        order@.len() == left@.len() + right@.len(),
        forall|i: int|
            0 <= i < order@.len() ==> left@.contains(#[trigger] order@[i]) || right@.contains(
                order@[i],
            ),
{
    let ghost shown = key_views(keys@);
    let mut order: Vec<usize> = Vec::new();
    let mut first: usize = 0;
    let mut second: usize = 0;
    while first < left.len() || second < right.len()
        invariant
            first <= left@.len(),
            second <= right@.len(),
            middle <= keys@.len(),
            shown == key_views(keys@),
            entries_ascend(shown, left@),
            entries_ascend(shown, right@),
            entries_within(left@, 0, middle as int),
            entries_within(right@, middle as int, keys@.len() as int),
            entries_ascend(shown, order@),
            order@.len() == first + second,
            all_before(shown, order@, left@, first as int),
            all_before(shown, order@, right@, second as int),
            forall|i: int|
                0 <= i < order@.len() ==> left@.contains(#[trigger] order@[i]) || right@.contains(
                    order@[i],
                ),
        decreases left@.len() + right@.len() - first - second,
    {
        let take_right = if first == left.len() {
            true
        } else if second == right.len() {
            false
        } else {
            let other = left[first];
            let next = right[second];
            proof {
                key_less_total(shown[other as int], shown[next as int]);
            }
            key_before(&keys[next], &keys[other])
        };
        let ghost before = order@;
        if take_right {
            let next = right[second];
            proof {
                if first < left@.len() {
                    assert(entry_less(shown, next as int, left@[first as int] as int));
                    next_comes_before(shown, next, left@, first as int);
                }
                assert(right@[second as int] == next);
            }
            order.push(next);
            second += 1;
        } else {
            let next = left[first];
            proof {
                if second < right@.len() {
                    assert(entry_less(shown, next as int, right@[second as int] as int));
                    next_comes_before(shown, next, right@, second as int);
                }
                assert(left@[first as int] == next);
            }
            order.push(next);
            first += 1;
        }
        proof {
            let next = order@[before.len() as int];
            assert(left@.contains(next) || right@.contains(next));
            assert forall|i: int| 0 <= i < order@.len() implies left@.contains(
                #[trigger] order@[i],
            ) || right@.contains(order@[i]) by {
                if i < before.len() {
                    assert(order@[i] == before[i]);
                }
            }
        }
    }
    order
}

fn sort_range(keys: &Vec<SortKey>, low: usize, high: usize) -> (order: Vec<usize>)
    requires
        low <= high <= keys@.len(),
    ensures
        entries_ascend(key_views(keys@), order@),
        entries_within(order@, low as int, high as int),
        order@.len() == high - low,
    decreases high - low,
{
    if high - low <= 1 {
        let mut order: Vec<usize> = Vec::new();
        if low < high {
            order.push(low);
        }
        return order;
    }
    let middle: usize = low + (high - low) / 2;
    let left = sort_range(keys, low, middle);
    let right = sort_range(keys, middle, high);
    let ghost first = left@;
    let ghost second = right@;
    let order = merge_orders(keys, left, right, middle);
    proof {
        assert forall|i: int| 0 <= i < order@.len() implies low <= (#[trigger] order@[i])
            < high by {
            if first.contains(order@[i]) {
                let k = first.index_of(order@[i]);
                assert(low <= first[k] < middle);
            } else {
                let k = second.index_of(order@[i]);
                assert(middle <= second[k] < high);
            }
        }
    }
    order
}

/// Sorts entries by their keys; equal keys keep their order.
pub fn sorted_order(keys: &Vec<SortKey>) -> (order: Vec<usize>)
    ensures
        is_order(key_views(keys@), order@),
{
    let order = sort_range(keys, 0, keys.len());
    proof {
        let shown = key_views(keys@);
        assert(order@.no_duplicates()) by {
            assert forall|i: int, j: int|
                0 <= i < order@.len() && 0 <= j < order@.len() && i != j implies order@[i]
                != order@[j] by {
                if i < j {
                    assert(entry_less(shown, order@[i] as int, order@[j] as int));
                } else {
                    assert(entry_less(shown, order@[j] as int, order@[i] as int));
                }
                key_less_total(shown[order@[i] as int], shown[order@[j] as int]);
            }
        }
    }
    order
}

/// Whether byte strings differ first where the left one has the smaller byte, or the left one is
/// where the right one begins.
pub open spec fn comes_before(left: Seq<u8>, right: Seq<u8>) -> bool {
    exists|at: int|
        {
            &&& 0 <= at <= left.len()
            &&& at < right.len()
            &&& #[trigger] left.take(at) == right.take(at)
            &&& at < left.len() ==> left[at] < right[at]
        }
}

/// The smaller of two byte strings comes before the other by their first difference.
pub proof fn smaller_comes_before(left: Seq<u8>, right: Seq<u8>)
    requires
        bytes_less(left, right),
    ensures
        comes_before(left, right),
    decreases left.len(),
{
    if left.len() == 0 {
        assert(left.take(0) =~= right.take(0));
    } else if left[0] != right[0] {
        assert(left.take(0) =~= right.take(0));
    } else {
        let tail = left.drop_first();
        let other = right.drop_first();
        smaller_comes_before(tail, other);
        let at = choose|at: int|
            {
                &&& 0 <= at <= tail.len()
                &&& at < other.len()
                &&& #[trigger] tail.take(at) == other.take(at)
                &&& at < tail.len() ==> tail[at] < other[at]
            };
        assert(left.take(at + 1) =~= right.take(at + 1)) by {
            assert forall|i: int| 0 <= i < at + 1 implies left[i] == right[i] by {
                if i > 0 {
                    assert(tail.take(at)[i - 1] == left[i]);
                    assert(other.take(at)[i - 1] == right[i]);
                }
            }
        }
    }
}

} // verus!
