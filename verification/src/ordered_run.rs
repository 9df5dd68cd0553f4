//! Ordered execution: what a speculative runner and the coordinator do next, and where either is
//! told to stop.

use crate::executor::{BurstUse, GrepGlobExecutor, Permit};
use crate::operation::{WorkCheckpoint, WorkStage, WorkStop};
use crate::ordered_window::{Frontier, OrderedError, RunningLease, SlotSpec, SpecWindow};
use vstd::prelude::*;

verus! {

/// Whether two windows know the same of every candidate.
pub open spec fn same_slots<R>(left: &SpecWindow<R>, right: &SpecWindow<R>) -> bool {
    forall|i: int| #[trigger] left.slot_at(i) == right.slot_at(i)
}

/// Whether a runner that nobody stops gets a candidate.
pub open spec fn can_claim<R>(
    window: &SpecWindow<R>,
    executor: &GrepGlobExecutor,
    generation: u64,
) -> bool {
    &&& executor.enabled()
    &&& executor.bursts().available() > 0
    &&& window.runners() < u64::MAX
    &&& window.accepting()
    &&& window.generation() == generation
    &&& exists|i: int| window.next() < i < window.end() && (#[trigger] window.slot_at(i)) is None
}

/// Gets a runner started: it asks for an extra lane, then for a candidate of its generation. A
/// runner that is told to stop on the way, or finds nothing to do, leaves neither a claimed
/// candidate nor a lane behind.
pub fn claim_candidate<R, W: WorkCheckpoint>(
    window: &mut SpecWindow<R>,
    executor: &mut GrepGlobExecutor,
    generation: u64,
    work: &W,
) -> (claimed: Option<(RunningLease, Permit)>)
    requires
        old(window).wf(),
        old(executor).wf(),
    ensures
        final(window).wf(),
        final(window).same_frame(old(window)),
        final(executor).wf(),
        final(executor).lanes() == old(executor).lanes(),
        final(executor).enabled() == old(executor).enabled(),
        final(executor).tickets() == old(executor).tickets(),
        work.always_stops() ==> claimed is None,
        match claimed {
            Some((lease, permit)) => {
                &&& can_claim(old(window), old(executor), generation)
                &&& old(window).first_vacant(lease.index as int)
                &&& lease.generation == generation
                &&& final(window).holds(lease)
                &&& forall|i: int|
                    i != lease.index ==> #[trigger] final(window).slot_at(i) == old(window).slot_at(
                        i,
                    )
                &&& permit.purpose() == BurstUse::SearchSpeculation
                &&& !old(executor).bursts().live().contains(permit.id())
                &&& final(executor).bursts().live() == old(executor).bursts().live().insert(
                    permit.id(),
                )
            },
            None => {
                &&& same_slots(final(window), old(window))
                &&& final(executor).bursts().live() == old(executor).bursts().live()
                &&& final(executor).bursts().available() == old(executor).bursts().available()
                &&& work.never_stops() ==> !can_claim(old(window), old(executor), generation)
            },
        },
{
    if work.check_work(WorkStage::RunnerStarted).is_err() {
        return None;
    }
    if work.check_work(WorkStage::BeforeBurstAcquire).is_err() {
        return None;
    }
    let permit = match executor.try_burst(BurstUse::SearchSpeculation) {
        Some(permit) => permit,
        None => {
            return None;
        },
    };
    if work.check_stop().is_err() || work.check_work(WorkStage::BeforeCandidateClaim).is_err() {
        give_back(executor, permit, Ghost(*old(executor)));
        return None;
    }
    let lease = match window.try_claim(generation) {
        Some(lease) => lease,
        None => {
            give_back(executor, permit, Ghost(*old(executor)));
            return None;
        },
    };
    if work.check_work(WorkStage::AfterCandidateClaim).is_err() {
        window.abandon(lease);
        assert(same_slots(window, old(window)));
        give_back(executor, permit, Ghost(*old(executor)));
        return None;
    }
    assert(window.next() < lease.index < old(window).end());
    assert(old(window).slot_at(lease.index as int) is None);
    Some((lease, permit))
}

fn give_back(
    executor: &mut GrepGlobExecutor,
    permit: Permit,
    Ghost(before): Ghost<GrepGlobExecutor>,
)
    requires
        old(executor).wf(),
        !before.bursts().live().contains(permit.id()),
        old(executor).bursts().live() == before.bursts().live().insert(permit.id()),
        old(executor).bursts().available() == before.bursts().available() - 1,
    ensures
        final(executor).wf(),
        final(executor).lanes() == old(executor).lanes(),
        final(executor).enabled() == old(executor).enabled(),
        final(executor).tickets() == old(executor).tickets(),
        final(executor).bursts().live() == before.bursts().live(),
        final(executor).bursts().available() == before.bursts().available(),
{
    executor.release_burst(permit);
    assert(before.bursts().live().insert(permit.id()).remove(permit.id())
        =~= before.bursts().live());
}

/// Ends a runner: its outcome is published, unless it or the work was stopped; then the candidate
/// is free again.
pub fn publish_candidate<R, W: WorkCheckpoint>(
    window: &mut SpecWindow<R>,
    lease: RunningLease,
    outcome: Result<R, WorkStop>,
    work: &W,
) -> (published: bool)
    requires
        old(window).wf(),
    ensures
        final(window).wf(),
        final(window).same_frame(old(window)),
        forall|i: int|
            i != lease.index ==> #[trigger] final(window).slot_at(i) == old(window).slot_at(i),
        published ==> outcome is Ok && old(window).accepting() && old(window).holds(lease)
            && final(window).slot_at(lease.index as int) == Some(
            SlotSpec::Ready { generation: lease.generation, value: outcome->Ok_0 },
        ),
        !published ==> !final(window).holds(lease),
        work.always_stops() ==> !published,
        work.never_stops() && outcome is Ok ==> published == (old(window).accepting() && old(
            window,
        ).holds(lease)),
{
    let value = match outcome {
        Ok(value) => value,
        Err(_) => {
            window.abandon(lease);
            return false;
        },
    };
    if work.check_stop().is_err() || work.check_work(WorkStage::BeforeReadyPublish).is_err() {
        window.abandon(lease);
        return false;
    }
    let published = window.publish(lease, value);
    if !published {
        window.abandon(lease);
    }
    published
}

/// What the coordinator does next.
#[derive(Debug)]
pub enum Turn<R> {
    /// Every candidate has been dealt with.
    Done,
    /// The request was cancelled.
    Cancelled,
    /// The outcome of the next candidate is there.
    Ready(R),
    /// Someone works on the next candidate.
    Wait,
    /// Nobody works on the next candidate: do it now.
    Inline,
}

/// Decides what the coordinator does next.
pub fn next_turn<R, W: WorkCheckpoint>(window: &mut SpecWindow<R>, work: &W) -> (turn: Turn<R>)
    requires
        old(window).wf(),
    ensures
        final(window).wf(),
        final(window).same_frame(old(window)),
        if old(window).next() >= old(window).candidates() {
            turn == Turn::<R>::Done && *final(window) == *old(window)
        } else {
            ||| !work.never_stops() && turn == Turn::<R>::Cancelled && *final(window) == *old(
                window,
            )
            ||| !work.always_stops() && match old(window).slot_at(old(window).next()) {
                Some(SlotSpec::Ready { value, .. }) => {
                    &&& turn == Turn::Ready(value)
                    &&& final(window).slot_at(old(window).next()) is None
                    &&& forall|i: int|
                        i != old(window).next() ==> #[trigger] final(window).slot_at(i) == old(
                            window,
                        ).slot_at(i)
                },
                Some(SlotSpec::Running { .. }) => turn == Turn::<R>::Wait && *final(window) == *old(
                    window,
                ),
                None => turn == Turn::<R>::Inline && *final(window) == *old(window),
            }
        },
{
    if window.next_reduce() >= window.candidate_count() {
        return Turn::Done;
    }
    if work.check_stop().is_err() {
        return Turn::Cancelled;
    }
    match window.take_frontier() {
        Frontier::Ready(value) => Turn::Ready(value),
        Frontier::Wait => Turn::Wait,
        Frontier::Inline => Turn::Inline,
    }
}

/// Whether the outcome of a candidate may be handed to the consumer.
pub fn may_reduce<W: WorkCheckpoint>(work: &W) -> (result: Result<(), OrderedError>)
    ensures
        work.never_stops() ==> result is Ok,
        work.always_stops() ==> result is Err,
        result matches Err(error) ==> error == OrderedError::Cancelled,
{
    match work.check_work(WorkStage::OrderedReduce) {
        Ok(()) => Ok(()),
        Err(_) => Err(OrderedError::Cancelled),
    }
}

/// Notes that the consumer took the outcome of the next candidate: it goes on with the one behind
/// it, or is over, which retires all speculation.
pub fn after_consume<R>(window: &mut SpecWindow<R>, goes_on: bool)
    requires
        old(window).wf(),
        old(window).next() < old(window).candidates(),
        old(window).slot_at(old(window).next()) is None,
    ensures
        final(window).wf(),
        final(window).width() == old(window).width(),
        final(window).candidates() == old(window).candidates(),
        goes_on ==> {
            &&& final(window).next() == old(window).next() + 1
            &&& final(window).generation() == old(window).generation()
            &&& final(window).accepting() == old(window).accepting()
            &&& same_slots(final(window), old(window))
        },
        !goes_on ==> {
            &&& final(window).next() == old(window).next()
            &&& !final(window).accepting()
            &&& forall|i: int| (#[trigger] final(window).slot_at(i)) is None
        },
{
    if goes_on {
        window.advance();
    } else {
        let _ = window.retire_generation(false);
    }
}

} // verus!
