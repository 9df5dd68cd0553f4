//! The quotas of extra CPU lanes: credits that are tried for and never waited for.

use vstd::prelude::*;

verus! {

/// The most lanes that are used for files.
pub const MAX_FILE_PARALLELISM: usize = 16;

/// Who borrows an extra lane.
#[derive(Clone, Copy, Debug, PartialEq, Eq, Structural)]
pub enum BurstUse {
    SearchSpeculation,
    TraversalExtra,
    SortExtra,
}

/// The right to one credit. It cannot be copied, and giving it back uses it up.
pub struct Permit {
    use_: BurstUse,
    id: Ghost<int>,
}

impl Permit {
    /// What tells permits apart.
    pub closed spec fn id(&self) -> int {
        self.id@
    }

    /// What the credit was borrowed for.
    pub closed spec fn purpose(&self) -> BurstUse {
        self.use_
    }

    /// What the credit was borrowed for.
    pub fn use_(&self) -> (purpose: BurstUse)
        ensures
            purpose == self.purpose(),
    {
        self.use_
    }
}

/// What became of the permits of a pool. The counts stop at the last number.
#[derive(Clone, Copy, Debug, PartialEq, Eq, Structural)]
pub struct LedgerSnapshot {
    /// The permits handed out.
    pub allocated: usize,
    /// The permits given back.
    pub released: usize,
    /// The permits that are out.
    pub live: usize,
    /// The permits given back more than once. There are none: giving one back uses it up.
    pub duplicate_releases: usize,
}

/// A count of so many more, up to the last number.
pub open spec fn counted(count: usize, more: nat) -> usize {
    if count + more > usize::MAX {
        usize::MAX
    } else {
        (count + more) as usize
    }
}

/// A fixed number of credits.
pub struct CreditPool {
    capacity: usize,
    available: usize,
    allocated: usize,
    released: usize,
    live: Ghost<Set<int>>,
    issued: Ghost<int>,
}

impl CreditPool {
    /// The number of credits in all.
    pub closed spec fn capacity(&self) -> nat {
        self.capacity as nat
    }

    /// The number of credits that are free.
    pub closed spec fn available(&self) -> nat {
        self.available as nat
    }

    /// How many permits were handed out.
    pub closed spec fn allocated(&self) -> usize {
        self.allocated
    }

    /// How many permits were given back.
    pub closed spec fn released(&self) -> usize {
        self.released
    }

    /// The permits that were handed out and not given back.
    pub closed spec fn live(&self) -> Set<int> {
        self.live@
    }

    /// Free credits and live permits make up the capacity.
    pub closed spec fn wf(&self) -> bool {
        &&& self.live@.finite()
        &&& self.issued@ >= 0
        &&& self.live@.len() + self.available == self.capacity
        &&& forall|id: int| self.live@.contains(id) ==> 0 <= id < self.issued@
    }

    /// All credits free.
    pub fn new(capacity: usize) -> (pool: Self)
        ensures
            pool.wf(),
            pool.capacity() == capacity,
            pool.available() == capacity,
            pool.live() == Set::<int>::empty(),
            pool.allocated() == 0,
            pool.released() == 0,
    {
        CreditPool {
            capacity,
            available: capacity,
            allocated: 0,
            released: 0,
            live: Ghost(Set::empty()),
            issued: Ghost(0),
        }
    }

    /// What became of the permits.
    pub fn ledger(&self) -> (snapshot: LedgerSnapshot)
        requires
            self.wf(),
        ensures
            snapshot.allocated == self.allocated(),
            snapshot.released == self.released(),
            snapshot.live == self.live().len(),
            snapshot.duplicate_releases == 0,
    {
        LedgerSnapshot {
            allocated: self.allocated,
            released: self.released,
            live: self.capacity - self.available,
            duplicate_releases: 0,
        }
    }

    /// Tries once for a credit.
    pub fn try_one(&mut self, use_: BurstUse) -> (permit: Option<Permit>)
        requires
            old(self).wf(),
        ensures
            final(self).wf(),
            final(self).capacity() == old(self).capacity(),
            final(self).released() == old(self).released(),
            match permit {
                Some(permit) => {
                    &&& permit.purpose() == use_
                    &&& !old(self).live().contains(permit.id())
                    &&& final(self).live() == old(self).live().insert(permit.id())
                    &&& final(self).available() == old(self).available() - 1
                    &&& final(self).allocated() == counted(old(self).allocated(), 1)
                },
                None => {
                    &&& old(self).available() == 0
                    &&& *final(self) == *old(self)
                },
            },
    {
        if self.available == 0 {
            return None;
        }
        self.available = self.available - 1;
        self.allocated = self.allocated.saturating_add(1);
        let ghost id = self.issued@;
        self.live = Ghost(self.live@.insert(id));
        self.issued = Ghost(id + 1);
        Some(Permit { use_, id: Ghost(id) })
    }

    /// Takes as many free credits as there are, but no more than asked for.
    pub fn try_up_to(&mut self, maximum: usize, use_: BurstUse) -> (permits: Vec<Permit>)
        requires
            old(self).wf(),
        ensures
            final(self).wf(),
            final(self).capacity() == old(self).capacity(),
            permits@.len() == if maximum < old(self).available() {
                maximum as nat
            } else {
                old(self).available()
            },
            final(self).available() == old(self).available() - permits@.len(),
            final(self).allocated() == counted(old(self).allocated(), permits@.len()),
            final(self).released() == old(self).released(),
            forall|i: int|
                0 <= i < permits@.len() ==> {
                    &&& (#[trigger] permits@[i]).purpose() == use_
                    &&& final(self).live().contains(permits@[i].id())
                    &&& !old(self).live().contains(permits@[i].id())
                },
            forall|i: int, j: int|
                0 <= i < j < permits@.len() ==> (#[trigger] permits@[i]).id() != (
                #[trigger] permits@[j]).id(),
            forall|id: int| old(self).live().contains(id) ==> final(self).live().contains(id),
    {
        let mut permits: Vec<Permit> = Vec::new();
        while permits.len() < maximum
            invariant_except_break
                self.wf(),
                self.capacity() == old(self).capacity(),
                permits@.len() <= maximum,
                self.available() == old(self).available() - permits@.len(),
                self.allocated() == counted(old(self).allocated(), permits@.len()),
                self.released() == old(self).released(),
                forall|i: int|
                    0 <= i < permits@.len() ==> {
                        &&& (#[trigger] permits@[i]).purpose() == use_
                        &&& self.live().contains(permits@[i].id())
                        &&& !old(self).live().contains(permits@[i].id())
                    },
                forall|i: int, j: int|
                    0 <= i < j < permits@.len() ==> (#[trigger] permits@[i]).id() != (
                    #[trigger] permits@[j]).id(),
                forall|id: int| old(self).live().contains(id) ==> self.live().contains(id),
            ensures
                self.wf(),
                self.capacity() == old(self).capacity(),
                permits@.len() <= maximum,
                permits@.len() == maximum || self.available() == 0,
                self.available() == old(self).available() - permits@.len(),
                self.allocated() == counted(old(self).allocated(), permits@.len()),
                self.released() == old(self).released(),
                forall|i: int|
                    0 <= i < permits@.len() ==> {
                        &&& (#[trigger] permits@[i]).purpose() == use_
                        &&& self.live().contains(permits@[i].id())
                        &&& !old(self).live().contains(permits@[i].id())
                    },
                forall|i: int, j: int|
                    0 <= i < j < permits@.len() ==> (#[trigger] permits@[i]).id() != (
                    #[trigger] permits@[j]).id(),
                forall|id: int| old(self).live().contains(id) ==> self.live().contains(id),
            decreases maximum - permits.len(),
        {
            let ghost before = self.live();
            match self.try_one(use_) {
                Some(permit) => {
                    let ghost id = permit.id();
                    let ghost held = permits@;
                    permits.push(permit);
                    proof {
                        assert forall|i: int| 0 <= i < held.len() implies (#[trigger] permits@[i])
                            == held[i] by {}
                        assert forall|i: int, j: int| 0 <= i < j < permits@.len() implies (
                        #[trigger] permits@[i]).id() != (#[trigger] permits@[j]).id() by {
                            assert(permits@[i] == held[i]);
                            if j == held.len() {
                                assert(before.contains(held[i].id()));
                            } else {
                                assert(permits@[j] == held[j]);
                            }
                        }
                    }
                },
                None => {
                    break;
                },
            }
        }
        permits
    }

    /// Gives a credit back.
    pub fn release(&mut self, permit: Permit)
        requires
            old(self).wf(),
            old(self).live().contains(permit.id()),
        ensures
            final(self).wf(),
            final(self).capacity() == old(self).capacity(),
            final(self).live() == old(self).live().remove(permit.id()),
            final(self).available() == old(self).available() + 1,
            final(self).allocated() == old(self).allocated(),
            final(self).released() == counted(old(self).released(), 1),
    {
        self.available = self.available + 1;
        self.released = self.released.saturating_add(1);
        self.live = Ghost(self.live@.remove(permit.id@));
    }

    /// The number of credits that are free.
    pub fn free(&self) -> (count: usize)
        ensures
            count == self.available(),
    {
        self.available
    }

    /// The number of credits in all.
    pub fn size(&self) -> (count: usize)
        ensures
            count == self.capacity(),
    {
        self.capacity
    }
}

/// Free credits and live permits make up the capacity at all times, so there are never more
/// permits than credits; when all are back, all credits are free.
pub proof fn permits_never_exceed_credits(pool: CreditPool)
    requires
        pool.wf(),
    ensures
        pool.live().finite(),
        pool.live().len() + pool.available() == pool.capacity(),
        pool.live().len() <= pool.capacity(),
        pool.live() == Set::<int>::empty() ==> pool.available() == pool.capacity(),
{
}

/// A ready result that keeps its credit until it is consumed.
pub struct BurstEnvelope<T> {
    permit: Permit,
    value: T,
}

impl<T> BurstEnvelope<T> {
    /// The permit kept.
    pub closed spec fn permit(&self) -> Permit {
        self.permit
    }

    /// The value kept.
    pub closed spec fn value(&self) -> T {
        self.value
    }

    /// Moves a permit and a result together.
    pub fn new(permit: Permit, value: T) -> (envelope: Self)
        ensures
            envelope.permit() == permit,
            envelope.value() == value,
    {
        BurstEnvelope { permit, value }
    }

    /// Gives the credit back and hands out the result.
    pub fn into_value(self, pool: &mut CreditPool) -> (value: T)
        requires
            old(pool).wf(),
            old(pool).live().contains(self.permit().id()),
        ensures
            value == self.value(),
            final(pool).wf(),
            final(pool).capacity() == old(pool).capacity(),
            final(pool).live() == old(pool).live().remove(self.permit().id()),
            final(pool).available() == old(pool).available() + 1,
            final(pool).allocated() == old(pool).allocated(),
            final(pool).released() == counted(old(pool).released(), 1),
    {
        pool.release(self.permit);
        self.value
    }
}

/// The extra lanes of the process: credits for CPU time and tickets for queued tasks.
pub struct GrepGlobExecutor {
    parallelism: usize,
    extra_disabled: bool,
    burst: CreditPool,
    leaf_tasks: CreditPool,
}

/// A number of lanes within the allowed range.
pub open spec fn clamped(parallelism: usize) -> nat {
    if parallelism < 1 {
        1
    } else if parallelism > MAX_FILE_PARALLELISM {
        MAX_FILE_PARALLELISM as nat
    } else {
        parallelism as nat
    }
}

impl GrepGlobExecutor {
    /// The number of lanes, that of the coordinator included.
    pub closed spec fn lanes(&self) -> nat {
        self.parallelism as nat
    }

    /// Whether extra lanes are in use.
    pub closed spec fn enabled(&self) -> bool {
        self.parallelism > 1 && !self.extra_disabled
    }

    /// The credits for CPU time.
    pub closed spec fn bursts(&self) -> CreditPool {
        self.burst
    }

    /// The tickets for queued tasks.
    pub closed spec fn tickets(&self) -> CreditPool {
        self.leaf_tasks
    }

    /// There is one credit and one ticket for each lane but the coordinator's.
    pub closed spec fn wf(&self) -> bool {
        &&& 1 <= self.parallelism <= MAX_FILE_PARALLELISM
        &&& self.burst.wf()
        &&& self.burst.capacity() == self.parallelism - 1
        &&& self.leaf_tasks.wf()
        &&& self.leaf_tasks.capacity() == self.parallelism - 1
    }

    /// An executor with so many lanes.
    pub fn with_parallelism(parallelism: usize) -> (executor: Self)
        ensures
            executor.wf(),
            executor.lanes() == clamped(parallelism),
            executor.enabled() == (executor.lanes() > 1),
            executor.bursts().available() == executor.lanes() - 1,
            executor.bursts().live() == Set::<int>::empty(),
            executor.bursts().allocated() == 0,
            executor.bursts().released() == 0,
            executor.tickets().available() == executor.lanes() - 1,
            executor.tickets().live() == Set::<int>::empty(),
            executor.tickets().allocated() == 0,
            executor.tickets().released() == 0,
    {
        let lanes: usize = if parallelism < 1 {
            1
        } else if parallelism > MAX_FILE_PARALLELISM {
            MAX_FILE_PARALLELISM
        } else {
            parallelism
        };
        GrepGlobExecutor {
            parallelism: lanes,
            extra_disabled: false,
            burst: CreditPool::new(lanes - 1),
            leaf_tasks: CreditPool::new(lanes - 1),
        }
    }

    /// The number of lanes.
    pub fn parallelism(&self) -> (lanes: usize)
        ensures
            lanes == self.lanes(),
    {
        self.parallelism
    }

    /// The number of lanes but the coordinator's.
    pub fn extra_capacity(&self) -> (lanes: usize)
        requires
            self.wf(),
        ensures
            lanes == self.lanes() - 1,
    {
        self.parallelism - 1
    }

    /// Whether extra lanes are in use.
    pub fn extra_enabled(&self) -> (result: bool)
        ensures
            result == self.enabled(),
    {
        self.parallelism > 1 && !self.extra_disabled
    }

    /// Tries for one extra lane.
    pub fn try_burst(&mut self, use_: BurstUse) -> (permit: Option<Permit>)
        requires
            old(self).wf(),
        ensures
            final(self).wf(),
            final(self).lanes() == old(self).lanes(),
            final(self).enabled() == old(self).enabled(),
            final(self).tickets() == old(self).tickets(),
            match permit {
                Some(permit) => {
                    &&& old(self).enabled()
                    &&& permit.purpose() == use_
                    &&& !old(self).bursts().live().contains(permit.id())
                    &&& final(self).bursts().live() == old(self).bursts().live().insert(
                        permit.id(),
                    )
                    &&& final(self).bursts().available() == old(self).bursts().available() - 1
                    &&& final(self).bursts().allocated() == counted(old(self).bursts().allocated(), 1)
                    &&& final(self).bursts().released() == old(self).bursts().released()
                },
                None => {
                    &&& !old(self).enabled() || old(self).bursts().available() == 0
                    &&& *final(self) == *old(self)
                },
            },
    {
        if !self.extra_enabled() {
            return None;
        }
        self.burst.try_one(use_)
    }

    /// Tries for several extra lanes.
    pub fn try_bursts(&mut self, maximum: usize, use_: BurstUse) -> (permits: Vec<Permit>)
        requires
            old(self).wf(),
        ensures
            final(self).wf(),
            final(self).lanes() == old(self).lanes(),
            final(self).enabled() == old(self).enabled(),
            final(self).tickets() == old(self).tickets(),
            permits@.len() == if !old(self).enabled() {
                0
            } else if maximum < old(self).bursts().available() {
                maximum as nat
            } else {
                old(self).bursts().available()
            },
            final(self).bursts().available() == old(self).bursts().available() - permits@.len(),
            final(self).bursts().allocated() == counted(old(self).bursts().allocated(), permits@.len()),
            final(self).bursts().released() == old(self).bursts().released(),
            forall|i: int|
                0 <= i < permits@.len() ==> {
                    &&& (#[trigger] permits@[i]).purpose() == use_
                    &&& final(self).bursts().live().contains(permits@[i].id())
                    &&& !old(self).bursts().live().contains(permits@[i].id())
                },
            forall|i: int, j: int|
                0 <= i < j < permits@.len() ==> (#[trigger] permits@[i]).id() != (
                #[trigger] permits@[j]).id(),
    {
        if !self.extra_enabled() {
            return Vec::new();
        }
        self.burst.try_up_to(maximum, use_)
    }

    /// Tries for one ticket.
    pub fn try_runner_ticket(&mut self) -> (ticket: Option<Permit>)
        requires
            old(self).wf(),
        ensures
            final(self).wf(),
            final(self).lanes() == old(self).lanes(),
            final(self).enabled() == old(self).enabled(),
            final(self).bursts() == old(self).bursts(),
            match ticket {
                Some(ticket) => {
                    &&& old(self).enabled()
                    &&& !old(self).tickets().live().contains(ticket.id())
                    &&& final(self).tickets().live() == old(self).tickets().live().insert(
                        ticket.id(),
                    )
                    &&& final(self).tickets().available() == old(self).tickets().available() - 1
                    &&& final(self).tickets().allocated() == counted(old(self).tickets().allocated(), 1)
                    &&& final(self).tickets().released() == old(self).tickets().released()
                },
                None => {
                    &&& !old(self).enabled() || old(self).tickets().available() == 0
                    &&& *final(self) == *old(self)
                },
            },
    {
        if !self.extra_enabled() {
            return None;
        }
        self.leaf_tasks.try_one(BurstUse::SearchSpeculation)
    }

    /// What became of the extra lanes.
    pub fn burst_ledger(&self) -> (snapshot: LedgerSnapshot)
        requires
            self.wf(),
        ensures
            snapshot.allocated == self.bursts().allocated(),
            snapshot.released == self.bursts().released(),
            snapshot.live == self.bursts().live().len(),
            snapshot.duplicate_releases == 0,
    {
        self.burst.ledger()
    }

    /// What became of the tickets.
    pub fn ticket_ledger(&self) -> (snapshot: LedgerSnapshot)
        requires
            self.wf(),
        ensures
            snapshot.allocated == self.tickets().allocated(),
            snapshot.released == self.tickets().released(),
            snapshot.live == self.tickets().live().len(),
            snapshot.duplicate_releases == 0,
    {
        self.leaf_tasks.ledger()
    }

    /// The extra lanes that are free.
    pub fn free_bursts(&self) -> (count: usize)
        ensures
            count == self.bursts().available(),
    {
        self.burst.free()
    }

    /// The tickets that are free.
    pub fn free_tickets(&self) -> (count: usize)
        ensures
            count == self.tickets().available(),
    {
        self.leaf_tasks.free()
    }

    /// Tries for tickets.
    pub fn try_runner_tickets(&mut self, maximum: usize) -> (tickets: Vec<Permit>)
        requires
            old(self).wf(),
        ensures
            final(self).wf(),
            final(self).lanes() == old(self).lanes(),
            final(self).enabled() == old(self).enabled(),
            final(self).bursts() == old(self).bursts(),
            tickets@.len() == if !old(self).enabled() {
                0
            } else if maximum < old(self).tickets().available() {
                maximum as nat
            } else {
                old(self).tickets().available()
            },
            final(self).tickets().available() == old(self).tickets().available() - tickets@.len(),
            final(self).tickets().allocated() == counted(old(self).tickets().allocated(), tickets@.len()),
            final(self).tickets().released() == old(self).tickets().released(),
            forall|i: int|
                0 <= i < tickets@.len() ==> {
                    &&& final(self).tickets().live().contains((#[trigger] tickets@[i]).id())
                    &&& !old(self).tickets().live().contains(tickets@[i].id())
                },
            forall|i: int, j: int|
                0 <= i < j < tickets@.len() ==> (#[trigger] tickets@[i]).id() != (
                #[trigger] tickets@[j]).id(),
    {
        if !self.extra_enabled() {
            return Vec::new();
        }
        self.leaf_tasks.try_up_to(maximum, BurstUse::SearchSpeculation)
    }

    /// Gives an extra lane back.
    pub fn release_burst(&mut self, permit: Permit)
        requires
            old(self).wf(),
            old(self).bursts().live().contains(permit.id()),
        ensures
            final(self).wf(),
            final(self).lanes() == old(self).lanes(),
            final(self).enabled() == old(self).enabled(),
            final(self).tickets() == old(self).tickets(),
            final(self).bursts().live() == old(self).bursts().live().remove(permit.id()),
            final(self).bursts().available() == old(self).bursts().available() + 1,
            final(self).bursts().allocated() == old(self).bursts().allocated(),
            final(self).bursts().released() == counted(old(self).bursts().released(), 1),
    {
        self.burst.release(permit);
    }

    /// Gives a ticket back.
    pub fn release_ticket(&mut self, ticket: Permit)
        requires
            old(self).wf(),
            old(self).tickets().live().contains(ticket.id()),
        ensures
            final(self).wf(),
            final(self).lanes() == old(self).lanes(),
            final(self).enabled() == old(self).enabled(),
            final(self).bursts() == old(self).bursts(),
            final(self).tickets().live() == old(self).tickets().live().remove(ticket.id()),
            final(self).tickets().available() == old(self).tickets().available() + 1,
            final(self).tickets().allocated() == old(self).tickets().allocated(),
            final(self).tickets().released() == counted(old(self).tickets().released(), 1),
    {
        self.leaf_tasks.release(ticket);
    }

    /// Whether a task may be handed to the pool. A pool that could not be built switches the
    /// extra lanes off for good, and the task is done in place.
    pub fn try_spawn(&mut self, pool_built: bool) -> (accepted: bool)
        requires
            old(self).wf(),
        ensures
            final(self).wf(),
            final(self).lanes() == old(self).lanes(),
            final(self).bursts() == old(self).bursts(),
            final(self).tickets() == old(self).tickets(),
            accepted == (old(self).enabled() && pool_built),
            final(self).enabled() == (old(self).enabled() && pool_built),
    {
        if !self.extra_enabled() {
            return false;
        }
        if !pool_built {
            self.extra_disabled = true;
            return false;
        }
        true
    }

    /// Switches the extra lanes off after a task panicked.
    pub fn disable_after_panic(&mut self)
        requires
            old(self).wf(),
        ensures
            final(self).wf(),
            final(self).lanes() == old(self).lanes(),
            final(self).bursts() == old(self).bursts(),
            final(self).tickets() == old(self).tickets(),
            !final(self).enabled(),
    {
        self.extra_disabled = true;
    }
}

} // verus!
