use fastctx::executor::{
    BurstEnvelope, BurstUse, CreditPool, GrepGlobExecutor, LedgerSnapshot, MAX_FILE_PARALLELISM,
};
use fastctx::operation::{
    OpError, RequestWorkGuard, Uninterrupted, WorkCheckpoint, WorkCtx, WorkStage, WorkStop,
};
use fastctx::ordered_run::{
    after_consume, claim_candidate, may_reduce, next_turn, publish_candidate, Turn,
};
use fastctx::ordered_window::{Frontier, OrderedError, SpecWindow};
use fastctx::parallel::{deliver_inline, worker_count, ReorderBuffer};
use fastctx::queue::into_queue;
use std::cell::{Cell, RefCell};
use std::collections::HashSet;

#[test]
fn dropping_an_armed_guard_cancels_only_its_child_scope() {
    let mut guard = RequestWorkGuard::new(false);
    assert_eq!(guard.check(), Ok(()));
    assert!(guard.let_go());
    assert_eq!(guard.check(), Err(OpError::Cancelled));
    assert!(!guard.let_go());
}

#[test]
fn disarming_a_joined_guard_does_not_cancel_the_operation_scope() {
    let mut guard = RequestWorkGuard::new(false);
    guard.disarm();
    assert!(!guard.let_go());
    assert_eq!(guard.check(), Ok(()));
}

#[test]
fn cancelling_the_parent_cancels_the_operation_scope() {
    let mut guard = RequestWorkGuard::new(false);
    guard.cancel_parent();
    assert_eq!(guard.check(), Err(OpError::Cancelled));
    let response = OpError::Cancelled.into_response();
    assert!(response.is_error);
}

#[test]
fn work_checks_request_cancellation_before_epoch_retirement() {
    let mut work = WorkCtx {
        request_cancelled: false,
        expected_epoch: Some(7),
        current_epoch: 7,
    };
    assert_eq!(work.check(), Ok(()));
    work.current_epoch = 8;
    assert_eq!(work.check(), Err(WorkStop::EpochRetired));
    work.request_cancelled = true;
    assert_eq!(work.check(), Err(WorkStop::RequestCancelled));
    assert_eq!(WorkCtx::inline(true).check_inline(), Err(OpError::Cancelled));
}

#[test]
fn stage_inventory_is_unique_and_complete() {
    let stages = [
        WorkStage::BeforeFilePermit,
        WorkStage::AfterFilePermit,
        WorkStage::RunnerQueued,
        WorkStage::RunnerStarted,
        WorkStage::BeforeBurstAcquire,
        WorkStage::BeforeCandidateClaim,
        WorkStage::AfterCandidateClaim,
        WorkStage::BeforeReadyPublish,
        WorkStage::TraversalEntry,
        WorkStage::TraversalBatchFlush,
        WorkStage::CapturePreflightRead,
        WorkStage::SnapshotChunk,
        WorkStage::SnapshotPromote,
        WorkStage::BeforeIdentityPostCheck,
        WorkStage::EncodingChunk,
        WorkStage::LegacySegment,
        WorkStage::CandidateValidation,
        WorkStage::BeforeRegexSearch,
        WorkStage::SinkMatch,
        WorkStage::OccurrenceBatch,
        WorkStage::OrderedReduce,
        WorkStage::SortChunk,
        WorkStage::SortMerge,
        WorkStage::RenderUnit,
        WorkStage::TokenProbe,
        WorkStage::BeforeFinalTokenVerify,
    ];
    assert_eq!(stages.len(), 26);
    assert_eq!(stages.into_iter().collect::<HashSet<_>>().len(), 26);
}

fn released(allocated: usize) -> LedgerSnapshot {
    LedgerSnapshot {
        allocated,
        released: allocated,
        live: 0,
        duplicate_releases: 0,
    }
}

fn assert_executor_ownership_released(executor: &GrepGlobExecutor) {
    for snapshot in [executor.burst_ledger(), executor.ticket_ledger()] {
        assert_eq!(snapshot.released, snapshot.allocated);
        assert_eq!(snapshot.live, 0);
        assert_eq!(snapshot.duplicate_releases, 0);
    }
    assert_eq!(executor.free_bursts(), executor.extra_capacity());
    assert_eq!(executor.free_tickets(), executor.extra_capacity());
}

#[test]
fn p1_has_no_extra_capacity_and_never_initializes_rayon() {
    let mut executor = GrepGlobExecutor::with_parallelism(1);
    assert_eq!(executor.parallelism(), 1);
    assert_eq!(executor.extra_capacity(), 0);
    assert!(executor.try_burst(BurstUse::SearchSpeculation).is_none());
    assert!(executor.try_runner_ticket().is_none());
    assert!(executor.try_bursts(10, BurstUse::TraversalExtra).is_empty());
    assert!(executor.try_runner_tickets(10).is_empty());
    assert!(!executor.try_spawn(true));
    assert!(!executor.extra_enabled());
}

#[test]
fn credits_and_tickets_are_bounded_try_only_linear_owners() {
    let mut executor = GrepGlobExecutor::with_parallelism(4);
    let mut permits = executor.try_bursts(99, BurstUse::SortExtra);
    let mut tickets = executor.try_runner_tickets(99);
    assert_eq!(permits.len(), 3);
    assert_eq!(tickets.len(), 3);
    assert_eq!(executor.free_bursts(), 0);
    assert_eq!(executor.free_tickets(), 0);
    assert!(executor.try_burst(BurstUse::TraversalExtra).is_none());
    assert!(executor.try_runner_ticket().is_none());
    assert!(permits
        .iter()
        .all(|permit| permit.use_() == BurstUse::SortExtra));

    executor.release_burst(permits.pop().unwrap());
    executor.release_ticket(tickets.pop().unwrap());
    permits.push(executor.try_burst(BurstUse::TraversalExtra).unwrap());
    tickets.push(executor.try_runner_ticket().unwrap());
    assert_eq!(executor.free_bursts(), 0);
    assert_eq!(executor.free_tickets(), 0);
    for permit in permits {
        executor.release_burst(permit);
    }
    for ticket in tickets {
        executor.release_ticket(ticket);
    }

    assert_eq!(executor.free_bursts(), 3);
    assert_eq!(executor.free_tickets(), 3);
    assert_eq!(executor.burst_ledger(), released(4));
    assert_eq!(executor.ticket_ledger(), released(4));
}

#[test]
fn build_failure_is_latched_and_returns_the_job_for_inline_progress() {
    let mut executor = GrepGlobExecutor::with_parallelism(4);
    let ticket = executor.try_runner_ticket().unwrap();
    assert!(!executor.try_spawn(false));
    executor.release_ticket(ticket);
    assert!(!executor.extra_enabled());
    assert!(executor.try_runner_ticket().is_none());
    assert!(executor.try_burst(BurstUse::TraversalExtra).is_none());
    assert!(!executor.try_spawn(true));
    assert_eq!(executor.free_tickets(), 3);
    assert_eq!(executor.ticket_ledger(), released(1));
}

#[test]
fn leaf_panic_returns_its_ticket_and_disables_later_extra_admission() {
    let mut executor = GrepGlobExecutor::with_parallelism(3);
    let ticket = executor.try_runner_ticket().unwrap();
    assert!(executor.try_spawn(true));
    executor.disable_after_panic();
    executor.release_ticket(ticket);
    assert!(!executor.extra_enabled());
    assert!(executor.try_runner_ticket().is_none());
    assert!(executor.try_burst(BurstUse::SearchSpeculation).is_none());
    assert_eq!(executor.free_tickets(), 2);
    assert_eq!(executor.ticket_ledger(), released(1));
}

#[test]
fn parallelism_is_clamped() {
    assert_eq!(GrepGlobExecutor::with_parallelism(0).parallelism(), 1);
    assert_eq!(
        GrepGlobExecutor::with_parallelism(99).parallelism(),
        MAX_FILE_PARALLELISM
    );
}

#[test]
fn permits_in_flight_and_free_credits_make_up_the_pool() {
    let mut pool = CreditPool::new(3);
    let first = pool.try_one(BurstUse::SortExtra).unwrap();
    let envelope = BurstEnvelope::new(first, 41);
    let rest = pool.try_up_to(9, BurstUse::SortExtra);
    assert_eq!(rest.len(), 2);
    assert_eq!(pool.free(), 0);
    assert_eq!(envelope.into_value(&mut pool), 41);
    assert_eq!(pool.free(), 1);
    assert_eq!(pool.size(), 3);
}

fn deliver<R>(
    window: &mut SpecWindow<R>,
    compute: &dyn Fn(usize) -> R,
    consume: &mut dyn FnMut(usize, R) -> bool,
) -> Result<(), OrderedError> {
    loop {
        let index = window.next_reduce();
        let value = match next_turn(window, &Uninterrupted) {
            Turn::Done => return Ok(()),
            Turn::Cancelled => return Err(OrderedError::Cancelled),
            Turn::Ready(value) => value,
            Turn::Inline => compute(index),
            Turn::Wait => panic!("nobody works ahead"),
        };
        may_reduce(&Uninterrupted)?;
        let goes_on = consume(index, value);
        after_consume(window, goes_on);
        if !goes_on {
            return Ok(());
        }
    }
}

#[test]
fn p1_runs_every_frontier_inline_and_in_order() {
    let mut window = SpecWindow::<usize>::new(1, 64);
    let mut delivered = Vec::new();
    deliver(&mut window, &|index| index * 2, &mut |index, value| {
        delivered.push((index, value));
        true
    })
    .unwrap();
    assert_eq!(
        delivered,
        (0..64).map(|index| (index, index * 2)).collect::<Vec<_>>()
    );
}

#[test]
fn lease_moves_its_permit_to_ready_then_consume_releases_both_once() {
    let mut executor = GrepGlobExecutor::with_parallelism(2);
    let mut window = SpecWindow::new(2, 2);
    let (lease, permit) =
        claim_candidate(&mut window, &mut executor, 0, &Uninterrupted).unwrap();
    assert_eq!(lease.index, 1);
    assert_eq!(executor.free_bursts(), 0);
    let envelope = BurstEnvelope::new(permit, 41);
    assert!(publish_candidate(
        &mut window,
        lease,
        Ok(envelope),
        &Uninterrupted
    ));

    assert!(matches!(window.take_frontier(), Frontier::Inline));
    window.advance();
    let Frontier::Ready(envelope) = window.take_frontier() else {
        panic!("published lease must become the next ready frontier")
    };
    let mut pool = CreditPool::new(0);
    assert_eq!(envelope.into_value(&mut pool), 41);
    assert_eq!(window.live_slots(), 0);
}

#[test]
fn abandoning_a_claimed_lease_clears_its_exact_slot_and_releases_once() {
    let mut executor = GrepGlobExecutor::with_parallelism(2);
    let mut window = SpecWindow::<usize>::new(2, 2);
    let (lease, permit) =
        claim_candidate(&mut window, &mut executor, 0, &Uninterrupted).unwrap();
    assert_eq!(lease.index, 1);
    assert_eq!(window.live_slots(), 1);
    assert!(window.abandon(lease));
    executor.release_burst(permit);
    assert_eq!(window.live_slots(), 0);
    assert!(!window.abandon(lease));
    assert_eq!(executor.burst_ledger(), released(1));
    assert_executor_ownership_released(&executor);
}

#[test]
fn publish_faults_never_orphan_a_running_slot_or_double_release_a_lease() {
    for stored_before_the_fault in [false, true] {
        let mut executor = GrepGlobExecutor::with_parallelism(2);
        let mut window = SpecWindow::<usize>::new(2, 2);
        let (lease, permit) =
            claim_candidate(&mut window, &mut executor, 0, &Uninterrupted).unwrap();
        if stored_before_the_fault {
            assert!(publish_candidate(&mut window, lease, Ok(7), &Uninterrupted));
        }
        // What a runner does on its way out, wherever it fails.
        assert_eq!(window.abandon(lease), !stored_before_the_fault);
        assert!(!window.abandon(lease));
        executor.release_burst(permit);
        window.retire_generation(false).unwrap();
        assert_eq!(window.live_slots(), 0);
        assert_eq!(executor.burst_ledger(), released(1));
        assert_executor_ownership_released(&executor);
    }
}

#[test]
fn generation_retirement_rejects_old_publish_and_allows_the_new_generation() {
    let mut window = SpecWindow::<usize>::new(2, 3);
    let old_generation = window.fill_snapshot().unwrap().0;
    let old_lease = window.try_claim(old_generation).unwrap();

    window.retire_generation(true).unwrap();
    let old_work = WorkCtx {
        request_cancelled: false,
        expected_epoch: Some(old_generation),
        current_epoch: window.current_generation(),
    };
    assert_eq!(old_work.check(), Err(WorkStop::EpochRetired));
    assert!(!window.publish(old_lease, 999));
    assert_eq!(window.live_slots(), 0);

    let new_generation = window.fill_snapshot().unwrap().0;
    assert_ne!(new_generation, old_generation);
    let new_lease = window.try_claim(new_generation).unwrap();
    assert!(window.publish(new_lease, 7));

    assert!(matches!(window.take_frontier(), Frontier::Inline));
    window.advance();
    let Frontier::Ready(value) = window.take_frontier() else {
        panic!("the replacement generation must publish normally")
    };
    assert_eq!(value, 7);
}

#[test]
fn reducer_retirement_makes_the_exact_inline_retry_win_over_old_work() {
    let mut executor = GrepGlobExecutor::with_parallelism(2);
    let mut window = SpecWindow::<usize>::new(2, 3);
    let (old_lease, permit) =
        claim_candidate(&mut window, &mut executor, 0, &Uninterrupted).unwrap();
    assert_eq!(old_lease.index, 1);
    let mut delivered = Vec::new();
    assert!(matches!(
        next_turn(&mut window, &Uninterrupted),
        Turn::Inline
    ));
    window.retire_generation(true).unwrap();
    delivered.push((0, 100));
    after_consume(&mut window, true);
    let old_work = WorkCtx {
        request_cancelled: false,
        expected_epoch: Some(0),
        current_epoch: window.current_generation(),
    };
    assert!(!publish_candidate(&mut window, old_lease, Ok(55), &old_work));
    executor.release_burst(permit);
    deliver(&mut window, &|index| index, &mut |index, value| {
        delivered.push((index, value));
        true
    })
    .unwrap();
    assert_eq!(delivered, vec![(0, 100), (1, 1), (2, 2)]);
    assert_executor_ownership_released(&executor);
}

#[test]
fn speculative_candidate_panic_is_published_in_order_without_an_orphan() {
    let mut executor = GrepGlobExecutor::with_parallelism(2);
    let mut window = SpecWindow::<Result<usize, usize>>::new(2, 3);
    let (lease, permit) =
        claim_candidate(&mut window, &mut executor, 0, &Uninterrupted).unwrap();
    assert!(publish_candidate(
        &mut window,
        lease,
        Ok(Err(1)),
        &Uninterrupted
    ));
    executor.release_burst(permit);
    let mut delivered = Vec::new();
    deliver(&mut window, &|index| Ok(index), &mut |index, value| {
        delivered.push((index, value));
        true
    })
    .unwrap();
    assert_eq!(delivered, vec![(0, Ok(0)), (1, Err(1)), (2, Ok(2))]);
    assert_eq!(window.live_slots(), 0);
    assert_executor_ownership_released(&executor);
}

#[test]
fn million_candidate_state_has_only_p_minus_one_live_heavy_slots() {
    let mut executor = GrepGlobExecutor::with_parallelism(4);
    let mut window = SpecWindow::<usize>::new(4, 1_000_000);
    let generation = window.fill_snapshot().unwrap().0;
    let mut claimed = Vec::new();
    for expected_index in 1..4 {
        let (lease, permit) =
            claim_candidate(&mut window, &mut executor, generation, &Uninterrupted).unwrap();
        assert_eq!(lease.index, expected_index);
        claimed.push((lease, permit));
    }
    assert!(executor.try_burst(BurstUse::SearchSpeculation).is_none());
    assert_eq!(window.live_slots(), 3);
    assert_eq!(window.peak_slots(), 3);
    assert_eq!(executor.burst_ledger().live, 3);
    assert!(window.fill_snapshot().is_none());
    for (lease, permit) in claimed {
        window.abandon(lease);
        executor.release_burst(permit);
    }
    assert_eq!(window.live_slots(), 0);
    assert_eq!(window.peak_slots(), 3);
    assert_eq!(executor.burst_ledger(), released(3));
    assert_executor_ownership_released(&executor);
}

#[test]
fn claimers_get_unique_indices_and_never_exceed_the_window() {
    let mut executor = GrepGlobExecutor::with_parallelism(8);
    let mut window = SpecWindow::<usize>::new(8, 1_000_000);
    let generation = window.fill_snapshot().unwrap().0;
    let mut claimed = Vec::new();
    while let Some(pair) =
        claim_candidate(&mut window, &mut executor, generation, &Uninterrupted)
    {
        claimed.push(pair);
    }
    let indices: Vec<usize> = claimed.iter().map(|(lease, _)| lease.index).collect();
    assert_eq!(indices, (1..8).collect::<Vec<_>>());
    assert_eq!(window.live_slots(), 7);
    assert_eq!(window.peak_slots(), 7);
    for (lease, permit) in claimed {
        assert!(window.abandon(lease));
        executor.release_burst(permit);
    }
    assert_eq!(window.live_slots(), 0);
    assert_eq!(executor.burst_ledger(), released(7));
    assert_executor_ownership_released(&executor);
}

struct CancelAt {
    stage: WorkStage,
    hits: Cell<usize>,
}

impl CancelAt {
    fn new(stage: WorkStage) -> Self {
        CancelAt {
            stage,
            hits: Cell::new(0),
        }
    }
}

impl WorkCheckpoint for CancelAt {
    fn never_stops(&self) -> bool {
        false
    }

    fn always_stops(&self) -> bool {
        false
    }

    fn stops_with(&self, _stop: WorkStop) -> bool {
        true
    }

    fn check_stop(&self) -> Result<(), WorkStop> {
        if self.hits.get() > 0 {
            Err(WorkStop::RequestCancelled)
        } else {
            Ok(())
        }
    }

    fn check_work(&self, stage: WorkStage) -> Result<(), WorkStop> {
        if stage == self.stage {
            self.hits.set(self.hits.get() + 1);
        }
        self.check_stop()
    }
}

#[test]
fn cancellation_at_every_runner_boundary_stops_before_later_work_or_publication() {
    for cancelled_stage in [
        WorkStage::RunnerQueued,
        WorkStage::RunnerStarted,
        WorkStage::BeforeBurstAcquire,
        WorkStage::BeforeCandidateClaim,
        WorkStage::AfterCandidateClaim,
        WorkStage::BeforeReadyPublish,
    ] {
        let mut executor = GrepGlobExecutor::with_parallelism(2);
        let mut window = SpecWindow::<usize>::new(2, 3);
        let work = CancelAt::new(cancelled_stage);
        let mut worker_calls = 0;
        if work.check_work(WorkStage::RunnerQueued).is_ok() {
            if let Some((lease, permit)) =
                claim_candidate(&mut window, &mut executor, 0, &work)
            {
                worker_calls += 1;
                assert!(!publish_candidate(&mut window, lease, Ok(1), &work));
                executor.release_burst(permit);
            }
        }
        assert!(matches!(next_turn(&mut window, &work), Turn::Cancelled));
        assert_eq!(work.hits.get(), 1, "{cancelled_stage:?}");
        let expected_worker_calls = usize::from(cancelled_stage == WorkStage::BeforeReadyPublish);
        assert_eq!(worker_calls, expected_worker_calls, "{cancelled_stage:?}");
        assert_eq!(window.live_slots(), 0);
        assert_executor_ownership_released(&executor);
    }
}

#[test]
fn cancellation_at_ordered_reduce_never_calls_the_consumer() {
    let work = CancelAt::new(WorkStage::OrderedReduce);
    let mut window = SpecWindow::<usize>::new(1, 1);
    assert!(matches!(next_turn(&mut window, &work), Turn::Inline));
    assert_eq!(may_reduce(&work), Err(OrderedError::Cancelled));
    assert_eq!(work.hits.get(), 1);
}

#[test]
fn early_break_retires_speculation_and_keeps_the_window_bounded() {
    let mut executor = GrepGlobExecutor::with_parallelism(4);
    let mut window = SpecWindow::<usize>::new(4, 10_000);
    let mut delivered = Vec::new();
    deliver(&mut window, &|index| index, &mut |index, value| {
        assert_eq!(index, value);
        delivered.push(index);
        index != 9
    })
    .unwrap();
    assert_eq!(delivered, (0..10).collect::<Vec<_>>());
    assert_eq!(window.live_slots(), 0);
    assert!(window.fill_snapshot().is_none());
    assert!(claim_candidate(&mut window, &mut executor, 0, &Uninterrupted).is_none());
    assert_executor_ownership_released(&executor);
}

#[test]
fn single_thread_runs_inline_and_in_order() {
    let items = ["a", "b", "c"];
    assert_eq!(worker_count(1, items.len()), 1);
    let seen = RefCell::new(Vec::new());
    deliver_inline(
        &items,
        &|item: &&str| item.to_uppercase(),
        &|index: usize, result: &String| {
            seen.borrow_mut().push((index, result.clone()));
            true
        },
    );
    assert_eq!(
        seen.into_inner(),
        vec![
            (0, "A".to_string()),
            (1, "B".to_string()),
            (2, "C".to_string())
        ]
    );
}

#[test]
fn early_break_stops_consumption_and_terminates() {
    let items: Vec<usize> = (0..500).collect();
    let scheduled = Cell::new(0);
    let consumed = RefCell::new(Vec::new());
    let results = deliver_inline(
        &items,
        &|item: &usize| {
            scheduled.set(scheduled.get() + 1);
            *item
        },
        &|index: usize, result: &usize| {
            assert_eq!(index, *result);
            consumed.borrow_mut().push(index);
            index != 9
        },
    );
    assert_eq!(consumed.into_inner(), (0..10).collect::<Vec<_>>());
    assert_eq!(results.len(), 10);
    assert!(scheduled.get() <= items.len());
}

#[test]
fn results_arrive_in_item_order_despite_uneven_work() {
    let mut buffer = ReorderBuffer::new();
    let mut delivered = Vec::new();
    for start in (0..200_u64).step_by(8) {
        for index in (start..start + 8).rev() {
            buffer.insert(index, index * 2);
            while let Some(next) = buffer.pop_next() {
                delivered.push(next);
            }
        }
    }
    let expected: Vec<(u64, u64)> = (0..200).map(|index| (index, index * 2)).collect();
    assert_eq!(delivered, expected);
    assert_eq!(buffer.delivered(), 200);
}

#[test]
fn a_queue_keeps_the_order_of_its_list() {
    assert_eq!(
        into_queue(vec![3, 1, 2]).into_iter().collect::<Vec<_>>(),
        vec![3, 1, 2]
    );
}
