//! Cooperative stopping of file operations: request cancellation and generation retirement.

use crate::model::ToolResponse;
use vstd::prelude::*;

verus! {

/// Why work must stop without publishing an outcome.
#[derive(Clone, Copy, Debug, PartialEq, Eq, Structural)]
pub enum WorkStop {
    /// The request was cancelled.
    RequestCancelled,
    /// The speculative generation that the work belongs to was retired.
    EpochRetired,
}

/// Failure of an operation as a whole.
#[derive(Clone, Copy, Debug, PartialEq, Eq, Structural)]
pub enum OpError {
    /// The request was cancelled.
    Cancelled,
}

impl OpError {
    /// The response that reports the failure; a cancellation is never shown as a success.
    pub fn into_response(self) -> (response: ToolResponse)
        ensures
            response.is_error,
            response.is_single_text("Request cancelled."@),
    {
        match self {
            OpError::Cancelled => ToolResponse::error("Request cancelled.".to_owned()),
        }
    }
}

/// The points at which work asks whether to go on.
#[derive(Clone, Copy, Debug, PartialEq, Eq, Structural, Hash)]
pub enum WorkStage {
    BeforeFilePermit,
    AfterFilePermit,
    RunnerQueued,
    RunnerStarted,
    BeforeBurstAcquire,
    BeforeCandidateClaim,
    AfterCandidateClaim,
    BeforeReadyPublish,
    TraversalEntry,
    TraversalBatchFlush,
    CapturePreflightRead,
    SnapshotChunk,
    SnapshotPromote,
    BeforeIdentityPostCheck,
    EncodingChunk,
    LegacySegment,
    CandidateValidation,
    BeforeRegexSearch,
    SinkMatch,
    OccurrenceBatch,
    OrderedReduce,
    SortChunk,
    SortMerge,
    RenderUnit,
    TokenProbe,
    BeforeFinalTokenVerify,
}

/// Something that long-running work asks whether it may go on.
pub trait WorkCheckpoint {
    /// Whether no check ever asks the work to stop.
    spec fn never_stops(&self) -> bool;

    /// Whether every check asks the work to stop.
    spec fn always_stops(&self) -> bool;

    /// Whether a check may ask the work to stop for this reason.
    spec fn stops_with(&self, stop: WorkStop) -> bool;

    /// Asks whether the work may go on, between two stages.
    fn check_stop(&self) -> (result: Result<(), WorkStop>)
        ensures
            self.never_stops() ==> result is Ok,
            self.always_stops() ==> result is Err,
            result matches Err(stop) ==> self.stops_with(stop),
    ;

    /// Asks whether the work may go on past this stage.
    fn check_work(&self, stage: WorkStage) -> (result: Result<(), WorkStop>)
        ensures
            self.never_stops() ==> result is Ok,
            self.always_stops() ==> result is Err,
            result matches Err(stop) ==> self.stops_with(stop),
    ;
}

/// The checkpoint of work that nobody can interrupt.
#[derive(Clone, Copy, Debug)]
pub struct Uninterrupted;

impl WorkCheckpoint for Uninterrupted {
    open spec fn never_stops(&self) -> bool {
        true
    }

    open spec fn always_stops(&self) -> bool {
        false
    }

    open spec fn stops_with(&self, stop: WorkStop) -> bool {
        false
    }

    fn check_stop(&self) -> (result: Result<(), WorkStop>)
        ensures
            result is Ok,
    {
        Ok(())
    }

    fn check_work(&self, stage: WorkStage) -> (result: Result<(), WorkStop>)
        ensures
            result is Ok,
    {
        Ok(())
    }
}

/// What is known of one unit of work at one moment.
#[derive(Clone, Copy, Debug)]
pub struct WorkCtx {
    /// Whether the request was cancelled.
    pub request_cancelled: bool,
    /// The generation that speculative work was started for; inline work has none.
    pub expected_epoch: Option<u64>,
    /// The generation that is current.
    pub current_epoch: u64,
}

impl WorkCtx {
    /// The reason to stop, a cancelled request before a retired generation.
    pub open spec fn stop(self) -> Option<WorkStop> {
        if self.request_cancelled {
            Some(WorkStop::RequestCancelled)
        } else if self.expected_epoch is Some && self.expected_epoch != Some(self.current_epoch) {
            Some(WorkStop::EpochRetired)
        } else {
            None
        }
    }

    /// Work of the request itself, which no retirement stops.
    pub fn inline(request_cancelled: bool) -> (work: Self)
        ensures
            work.request_cancelled == request_cancelled,
            work.expected_epoch is None,
    {
        WorkCtx { request_cancelled, expected_epoch: None, current_epoch: 0 }
    }

    /// Checks request cancellation before generation retirement.
    pub fn check(&self) -> (result: Result<(), WorkStop>)
        ensures
            result == match self.stop() {
                Some(stop) => Err(stop),
                None => Ok(()),
            },
    {
        if self.request_cancelled {
            return Err(WorkStop::RequestCancelled);
        }
        if let Some(expected) = self.expected_epoch {
            if expected != self.current_epoch {
                return Err(WorkStop::EpochRetired);
            }
        }
        Ok(())
    }

    /// The check of inline work, in the terms of the operation.
    pub fn check_inline(&self) -> (result: Result<(), OpError>)
        requires
            self.expected_epoch is None,
        ensures
            result == if self.request_cancelled {
                Err(OpError::Cancelled)
            } else {
                Ok(())
            },
    {
        match self.check() {
            Ok(()) => Ok(()),
            Err(_) => Err(OpError::Cancelled),
        }
    }
}

impl WorkCheckpoint for WorkCtx {
    open spec fn never_stops(&self) -> bool {
        self.stop() is None
    }

    open spec fn always_stops(&self) -> bool {
        self.stop() is Some
    }

    open spec fn stops_with(&self, stop: WorkStop) -> bool {
        self.stop() == Some(stop)
    }

    fn check_stop(&self) -> (result: Result<(), WorkStop>)
        ensures
            result == match self.stop() {
                Some(stop) => Err(stop),
                None => Ok(()),
            },
    {
        self.check()
    }

    fn check_work(&self, stage: WorkStage) -> (result: Result<(), WorkStop>)
        ensures
            result == match self.stop() {
                Some(stop) => Err(stop),
                None => Ok(()),
            },
    {
        self.check()
    }
}

/// The scope that ties blocking work to the request future that waits for it: letting go of an
/// armed guard cancels the child scope, once, and never the scope it was made from.
#[derive(Clone, Copy, Debug, PartialEq, Eq, Structural)]
pub struct RequestWorkGuard {
    armed: bool,
    child_cancelled: bool,
    parent_cancelled: bool,
}

impl RequestWorkGuard {
    /// Whether letting go of the guard still cancels.
    pub closed spec fn armed(&self) -> bool {
        self.armed
    }

    /// Whether the work of this request has been told to stop.
    pub closed spec fn cancelled(&self) -> bool {
        self.child_cancelled || self.parent_cancelled
    }

    /// Whether the scope that this one was made from is cancelled.
    pub closed spec fn parent_cancelled(&self) -> bool {
        self.parent_cancelled
    }

    /// An armed guard under a parent scope.
    pub fn new(parent_cancelled: bool) -> (guard: Self)
        ensures
            guard.armed(),
            guard.cancelled() == parent_cancelled,
            guard.parent_cancelled() == parent_cancelled,
    {
        RequestWorkGuard { armed: true, child_cancelled: false, parent_cancelled }
    }

    /// Notes that the blocking work was joined, so that letting go is inert.
    pub fn disarm(&mut self)
        ensures
            !final(self).armed(),
            final(self).cancelled() == old(self).cancelled(),
            final(self).parent_cancelled() == old(self).parent_cancelled(),
    {
        self.armed = false;
    }

    /// Lets go of the guard and tells whether the child scope is to be cancelled now.
    pub fn let_go(&mut self) -> (cancel: bool)
        ensures
            cancel == old(self).armed(),
            !final(self).armed(),
            final(self).cancelled() == (old(self).cancelled() || old(self).armed()),
            final(self).parent_cancelled() == old(self).parent_cancelled(),
    {
        let cancel = self.armed;
        self.armed = false;
        if cancel {
            self.child_cancelled = true;
        }
        cancel
    }

    /// Notes that the parent scope was cancelled.
    pub fn cancel_parent(&mut self)
        ensures
            final(self).cancelled(),
            final(self).parent_cancelled(),
            final(self).armed() == old(self).armed(),
    {
        self.parent_cancelled = true;
    }

    /// What work under this guard learns from a check.
    pub fn check(&self) -> (result: Result<(), OpError>)
        ensures
            result == if self.cancelled() {
                Err(OpError::Cancelled)
            } else {
                Ok(())
            },
    {
        if self.child_cancelled || self.parent_cancelled {
            Err(OpError::Cancelled)
        } else {
            Ok(())
        }
    }
}

} // verus!
