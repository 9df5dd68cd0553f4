//! Restoring the order of results that independent workers finish in any order.

use std::collections::BTreeMap;
use vstd::prelude::*;

verus! {

/// How many workers are worth starting.
pub fn worker_count(threads: usize, items: usize) -> (count: usize)
    ensures
        count == if threads < items {
            threads
        } else {
            items
        },
{
    if threads < items {
        threads
    } else {
        items
    }
}

/// Results that wait for their turn.
pub struct ReorderBuffer<R> {
    pending: BTreeMap<u64, R>,
    expected: u64,
}

impl<R> ReorderBuffer<R> {
    /// The results that wait, by position.
    pub closed spec fn waiting(&self) -> Map<u64, R> {
        self.pending@
    }

    /// The position whose turn it is.
    pub closed spec fn expected(&self) -> u64 {
        self.expected
    }

    /// Nothing received yet.
    pub fn new() -> (buffer: Self)
        ensures
            buffer.waiting() == Map::<u64, R>::empty(),
            buffer.expected() == 0,
    {
        ReorderBuffer { pending: BTreeMap::new(), expected: 0 }
    }

    /// The position whose turn it is, which is also the number of results handed out.
    pub fn delivered(&self) -> (count: u64)
        ensures
            count == self.expected(),
    {
        self.expected
    }

    /// Takes a result in.
    pub fn insert(&mut self, index: u64, result: R)
        ensures
            final(self).waiting() == old(self).waiting().insert(index, result),
            final(self).expected() == old(self).expected(),
    {
        let _ = self.pending.insert(index, result);
    }

    /// Hands out the result whose turn it is, if it is there. Each position is handed out once,
    /// in ascending order without a gap.
    pub fn pop_next(&mut self) -> (next: Option<(u64, R)>)
        requires
            old(self).expected() < u64::MAX,
        ensures
            match next {
                Some((index, result)) => {
                    &&& index == old(self).expected()
                    &&& old(self).waiting().dom().contains(index)
                    &&& result == old(self).waiting()[index]
                    &&& final(self).waiting() == old(self).waiting().remove(index)
                    &&& final(self).expected() == index + 1
                },
                None => {
                    &&& !old(self).waiting().dom().contains(old(self).expected())
                    &&& *final(self) == *old(self)
                },
            },
    {
        let index = self.expected;
        if !self.pending.contains_key(&index) {
            return None;
        }
        match self.pending.remove(&index) {
            Some(result) => {
                self.expected = index + 1;
                Some((index, result))
            },
            None => None,
        }
    }
}

/// Works on items one by one on the caller's lane and hands each result out in item order, until
/// the consumer has had enough.
pub fn deliver_inline<T, R, W: Fn(&T) -> R, C: Fn(usize, &R) -> bool>(
    items: &[T],
    worker: &W,
    consume: &C,
) -> (results: Vec<R>)
    requires
        forall|item: &T| #[trigger] call_requires(*worker, (item,)),
        forall|index: usize, result: &R| #[trigger] call_requires(*consume, (index, result)),
    ensures
        results@.len() <= items@.len(),
        forall|i: int|
            0 <= i < results@.len() ==> call_ensures(
                *worker,
                (&items@[i],),
                #[trigger] results@[i],
            ),
        forall|i: int|
            0 <= i < results@.len() - 1 ==> call_ensures(
                *consume,
                (i as usize, &#[trigger] results@[i]),
                true,
            ),
        results@.len() < items@.len() ==> results@.len() > 0 && call_ensures(
            *consume,
            ((results@.len() - 1) as usize, &results@.last()),
            false,
        ),
{
    let mut results: Vec<R> = Vec::new();
    let mut index: usize = 0;
    while index < items.len()
        invariant
            index <= items@.len(),
            results@.len() == index,
            forall|item: &T| #[trigger] call_requires(*worker, (item,)),
            forall|index: usize, result: &R| #[trigger] call_requires(*consume, (index, result)),
            forall|i: int|
                0 <= i < index ==> call_ensures(*worker, (&items@[i],), #[trigger] results@[i]),
            forall|i: int|
                0 <= i < index ==> call_ensures(
                    *consume,
                    (i as usize, &#[trigger] results@[i]),
                    true,
                ),
        decreases items@.len() - index,
    {
        let result = worker(&items[index]);
        let goes_on = consume(index, &result);
        let ghost made = result;
        results.push(result);
        assert(results@[index as int] == made);
        if !goes_on {
            assert(results@.last() == made);
            return results;
        }
        index += 1;
    }
    results
}

} // verus!
