//! Taking the items of a list one by one from its front.

use std::collections::VecDeque;
use vstd::prelude::*;

verus! {

/// The items of a list as a queue, in the same order.
pub fn into_queue<T>(items: Vec<T>) -> (queue: VecDeque<T>)
    ensures
        queue@ == items@,
{
    let ghost all = items@;
    let mut rest = items;
    let mut queue: VecDeque<T> = VecDeque::new();
    let ghost mut left: int = all.len() as int;
    assert(all.skip(left) =~= Seq::<T>::empty());
    assert(all.take(left) =~= all);
    while rest.len() > 0
        invariant
            0 <= left <= all.len(),
            rest@ == all.take(left),
            queue@ == all.skip(left),
        decreases rest@.len(),
    {
        if let Some(last) = rest.pop() {
            queue.push_front(last);
            proof {
                left = left - 1;
                assert(rest@ =~= all.take(left));
                assert(queue@ =~= all.skip(left));
            }
        }
    }
    assert(all.skip(0) =~= all);
    queue
}

} // verus!
