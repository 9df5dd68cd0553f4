//! Counting the positions of a sequence at which something holds.

use vstd::prelude::*;

verus! {

/// The positions before `end` at which `holds` is true.
pub open spec fn positions(end: int, holds: spec_fn(int) -> bool) -> Set<int> {
    Set::new(|i: int| 0 <= i < end && holds(i))
}

/// Before the first position there is none; each further one counts where `holds` is true.
pub proof fn one_more_position(end: int, holds: spec_fn(int) -> bool)
    requires
        0 <= end,
    ensures
        positions(0, holds).finite(),
        positions(0, holds).len() == 0,
        positions(end, holds).finite(),
        positions(end + 1, holds).finite(),
        positions(end + 1, holds).len() == positions(end, holds).len() + if holds(end) {
            1nat
        } else {
            0nat
        },
    decreases end,
{
    assert(positions(0, holds) =~= Set::<int>::empty());
    if end > 0 {
        one_more_position(end - 1, holds);
    }
    if holds(end) {
        assert(positions(end + 1, holds) =~= positions(end, holds).insert(end));
    } else {
        assert(positions(end + 1, holds) =~= positions(end, holds));
    }
}

/// Nothing is counted exactly where nothing holds.
pub proof fn no_position(end: int, holds: spec_fn(int) -> bool)
    requires
        0 <= end,
    ensures
        positions(end, holds).finite(),
        positions(end, holds).len() == 0 <==> forall|i: int| 0 <= i < end ==> !#[trigger] holds(i),
{
    one_more_position(end, holds);
    if forall|i: int| 0 <= i < end ==> !#[trigger] holds(i) {
        assert(positions(end, holds) =~= Set::<int>::empty());
    } else {
        let i = choose|i: int| 0 <= i < end && #[trigger] holds(i);
        assert(positions(end, holds).contains(i));
        if positions(end, holds).len() == 0 {
            positions(end, holds).lemma_len0_is_empty();
        }
    }
}

} // verus!
