//! The course of a replacement: the host does what it is asked for and tells what came of it,
//! until there is a response.

use crate::edit::report;
use crate::edit::report::Unreachable;
use crate::edit::service;
use crate::edit::service::{check_candidates, Candidate, ReplaceRun, MAX_CANDIDATES};
use crate::model::ToolResponse;
use crate::ordering;
use crate::paging;
use vstd::prelude::*;
use vstd::string::*;

verus! {

/// What a walk over the root found.
#[derive(Debug)]
pub struct Collected {
    /// How many candidates there are.
    pub count: usize,
    pub unreachable: Unreachable,
}

/// What the host of a replacement is to do next.
#[derive(Debug)]
pub enum ReplaceAction {
    /// Open a candidate.
    Open(usize),
    /// Commit an analyzed file under its locks.
    Commit(usize),
    /// Nothing more: this is the response.
    Respond(ToolResponse),
}

/// How far a replacement has come.
#[derive(Debug)]
pub enum ReplacePhase {
    /// The candidates are being collected.
    Collecting,
    /// A candidate is being opened.
    Opening { next: usize, count: usize },
    /// A file is being committed.
    Committing { order: Vec<usize>, at: usize },
    /// There is a response.
    Over,
}

/// A replacement from its first to its last step.
pub struct ReplaceCourse {
    pub run: ReplaceRun,
    pub unreachable: Unreachable,
    pub phase: ReplacePhase,
}

/// Whether a replacement may write at all: it is no preview, and there are not too many matches.
pub open spec fn may_write(run: ReplaceRun) -> bool {
    run.refusal_spec() is None && !service::flag(run.request.dry_run)
}

/// Whether no file was written.
pub open spec fn nothing_written(run: ReplaceRun) -> bool {
    forall|i: int| 0 <= i < run.written@.len() ==> (#[trigger] run.written@[i]) is None
}

/// Whether an action ends the replacement with an error.
pub open spec fn ends_with_error(
    course: ReplaceCourse,
    action: ReplaceAction,
    message: Seq<char>,
) -> bool {
    &&& course.phase is Over
    &&& action matches ReplaceAction::Respond(response)
    &&& response.is_error
    &&& response.is_single_text(message)
}

/// Whether an action ends the replacement with the report of what it would do.
pub open spec fn ends_with_preview<F: Fn(&str) -> usize, G: Fn(usize) -> Option<usize>>(
    course: ReplaceCourse,
    action: ReplaceAction,
    estimate: F,
    expand: G,
) -> bool {
    &&& course.phase is Over
    &&& action matches ReplaceAction::Respond(response)
    &&& forall|cost: spec_fn(Seq<char>) -> nat, grant: spec_fn(nat) -> Option<nat>|
        #[trigger] paging::estimates(estimate, cost) && #[trigger] report::expands(expand, grant)
            ==> report::responds(
            response,
            course.run.dry_run_answer(course.unreachable, cost, grant),
        )
}

/// Whether an action ends the replacement with the report of what it did.
pub open spec fn ends_with_report<F: Fn(&str) -> usize, G: Fn(usize) -> Option<usize>>(
    course: ReplaceCourse,
    action: ReplaceAction,
    estimate: F,
    expand: G,
) -> bool {
    &&& course.phase is Over
    &&& action matches ReplaceAction::Respond(response)
    &&& forall|
        order: Seq<usize>,
        cost: spec_fn(Seq<char>) -> nat,
        grant: spec_fn(nat) -> Option<nat>,
    |
        #[trigger] ordering::is_order(service::failure_keys(course.run.plan().failures), order)
            && #[trigger] paging::estimates(estimate, cost) && #[trigger] report::expands(
            expand,
            grant,
        ) ==> report::responds(
            response,
            course.run.apply_answer(course.unreachable, order, cost, grant),
        )
}

/// Whether an action asks for a candidate.
pub open spec fn asks_to_open(
    course: ReplaceCourse,
    action: ReplaceAction,
    next: int,
    count: usize,
) -> bool {
    &&& course.phase matches ReplacePhase::Opening { next: wanted, count: all }
    &&& wanted == next
    &&& all == count
    &&& action matches ReplaceAction::Open(index)
    &&& index == next
}

/// Whether an action asks for the commit of the file at a place of an order.
pub open spec fn asks_to_commit(
    course: ReplaceCourse,
    action: ReplaceAction,
    order: Seq<usize>,
    at: int,
) -> bool {
    &&& course.phase matches ReplacePhase::Committing { order: kept, at: place }
    &&& kept@ == order
    &&& place == at
    &&& action matches ReplaceAction::Commit(index)
    &&& index == order[at]
}

/// What follows the analysis of all candidates: a refusal, a preview, or the first commit in the
/// order of identities.
pub open spec fn settled<F: Fn(&str) -> usize, G: Fn(usize) -> Option<usize>>(
    course: ReplaceCourse,
    action: ReplaceAction,
    estimate: F,
    expand: G,
) -> bool {
    match course.run.refusal_spec() {
        Some(message) => ends_with_error(course, action, message),
        None => if service::flag(course.run.request.dry_run) {
            ends_with_preview(course, action, estimate, expand)
        } else if course.run.analyzed@.len() == 0 {
            ends_with_report(course, action, estimate, expand)
        } else {
            exists|order: Seq<usize>| #[trigger]
                ordering::is_order(service::commit_keys(course.run.plan().analyzed), order)
                    && asks_to_commit(course, action, order, 0)
        },
    }
}

/// A replacement that is refused, or that only previews, asks for no commit.
pub proof fn refused_replacement_commits_nothing<
    F: Fn(&str) -> usize,
    G: Fn(usize) -> Option<usize>,
>(course: ReplaceCourse, action: ReplaceAction, estimate: F, expand: G)
    requires
        settled(course, action, estimate, expand),
        !may_write(course.run),
    ensures
        action is Respond,
        course.phase is Over,
{
}

impl ReplaceCourse {
    /// Whether the phase fits what is known: nothing is written before all candidates were
    /// analyzed, a commit is under way only where writing is allowed, and the files that are
    /// still to be committed were not written.
    pub open spec fn wf(&self) -> bool {
        &&& self.run.wf()
        &&& match self.phase {
            ReplacePhase::Collecting => nothing_written(self.run) && self.run.analyzed@.len() == 0,
            ReplacePhase::Opening { next, count } => nothing_written(self.run) && next < count
                <= MAX_CANDIDATES,
            ReplacePhase::Committing { order, at } => {
                &&& may_write(self.run)
                &&& at < order@.len()
                &&& ordering::is_order(service::commit_keys(self.run.plan().analyzed), order@)
                &&& forall|i: int|
                    at <= i < order@.len() ==> self.run.written@[#[trigger] order@[i] as int]
                        is None
            },
            ReplacePhase::Over => true,
        }
    }

    /// Whether an action is one that the phase allows: a commit only of an analyzed file that was
    /// not written, where writing is allowed.
    pub open spec fn allows(&self, action: ReplaceAction) -> bool {
        action matches ReplaceAction::Commit(index) ==> {
            &&& may_write(self.run)
            &&& index < self.run.analyzed@.len()
            &&& self.run.written@[index as int] is None
        }
    }

    /// Begins a replacement whose candidates are to be collected.
    pub fn begin(run: ReplaceRun) -> (course: Self)
        requires
            run.wf(),
            run.analyzed@.len() == 0,
        ensures
            course.wf(),
            course.run == run,
            course.phase is Collecting,
            course.unreachable.issues@.len() == 0,
            course.unreachable.total == 0,
    {
        ReplaceCourse {
            run,
            unreachable: Unreachable { issues: Vec::new(), total: 0 },
            phase: ReplacePhase::Collecting,
        }
    }

    fn finish(&mut self, response: ToolResponse) -> (action: ReplaceAction)
        ensures
            final(self).run == old(self).run,
            final(self).unreachable == old(self).unreachable,
            final(self).phase is Over,
            action == ReplaceAction::Respond(response),
    {
        self.phase = ReplacePhase::Over;
        ReplaceAction::Respond(response)
    }

    fn settle<F: Fn(&str) -> usize, G: Fn(usize) -> Option<usize>>(
        &mut self,
        estimate: &F,
        expand: &G,
    ) -> (action: ReplaceAction)
        requires
            old(self).run.wf(),
            nothing_written(old(self).run),
            forall|text: &str| #[trigger] call_requires(*estimate, (text,)),
            forall|required: usize| #[trigger] call_requires(*expand, (required,)),
        ensures
            final(self).wf(),
            final(self).allows(action),
            final(self).run == old(self).run,
            final(self).unreachable == old(self).unreachable,
            settled(*final(self), action, *estimate, *expand),
    {
        if let Some(message) = self.run.refusal() {
            return self.finish(ToolResponse::error(message));
        }
        if self.run.is_dry_run() {
            let response = self.run.dry_run_report(&self.unreachable, estimate, expand);
            return self.finish(response);
        }
        if self.run.analyzed.len() == 0 {
            let response = self.run.apply_report(&self.unreachable, estimate, expand);
            return self.finish(response);
        }
        let order = self.run.commit_order();
        let first = order[0];
        assert(order@[0] < self.run.written@.len());
        self.phase = ReplacePhase::Committing { order, at: 0 };
        ReplaceAction::Commit(first)
    }

    /// Takes in what the walk over the root found, or the message about a walk that failed.
    pub fn collected<F: Fn(&str) -> usize, G: Fn(usize) -> Option<usize>>(
        &mut self,
        found: Result<Collected, String>,
        estimate: &F,
        expand: &G,
    ) -> (action: ReplaceAction)
        requires
            old(self).wf(),
            old(self).phase is Collecting,
            forall|text: &str| #[trigger] call_requires(*estimate, (text,)),
            forall|required: usize| #[trigger] call_requires(*expand, (required,)),
        ensures
            final(self).wf(),
            final(self).allows(action),
            final(self).run == old(self).run,
            match found {
                Err(message) => ends_with_error(*final(self), action, message@),
                Ok(found) => if found.count > MAX_CANDIDATES {
                    ends_with_error(
                        *final(self),
                        action,
                        "Too many candidate files: over 10000 matched. Narrow the path or glob."@,
                    )
                } else if found.count == 0 {
                    &&& final(self).unreachable == found.unreachable
                    &&& settled(*final(self), action, *estimate, *expand)
                } else {
                    &&& final(self).unreachable == found.unreachable
                    &&& asks_to_open(*final(self), action, 0, found.count)
                },
            },
    {
        let found = match found {
            Ok(found) => found,
            Err(message) => {
                return self.finish(ToolResponse::error(message));
            },
        };
        if let Err(response) = check_candidates(found.count) {
            return self.finish(response);
        }
        self.unreachable = found.unreachable;
        if found.count == 0 {
            return self.settle(estimate, expand);
        }
        self.phase = ReplacePhase::Opening { next: 0, count: found.count };
        ReplaceAction::Open(0)
    }

    /// Takes in the candidate that was asked for.
    pub fn opened<F: Fn(&str) -> usize, G: Fn(usize) -> Option<usize>>(
        &mut self,
        candidate: Candidate,
        estimate: &F,
        expand: &G,
    ) -> (action: ReplaceAction)
        requires
            old(self).wf(),
            old(self).phase is Opening,
            candidate.opened matches Ok(opened) ==> opened.document.wf(),
            forall|text: &str| #[trigger] call_requires(*estimate, (text,)),
            forall|required: usize| #[trigger] call_requires(*expand, (required,)),
        ensures
            final(self).wf(),
            final(self).allows(action),
            final(self).unreachable == old(self).unreachable,
            final(self).run.same_request(old(self).run),
            nothing_written(final(self).run),
            match service::observed(old(self).run, old(self).run.plan(), candidate) {
                Err(message) => ends_with_error(*final(self), action, message),
                Ok(plan) => {
                    let next = old(self).phase->Opening_next + 1;
                    let count = old(self).phase->Opening_count;
                    &&& final(self).run.plan() == plan
                    &&& if next < count {
                        asks_to_open(*final(self), action, next, count)
                    } else {
                        settled(*final(self), action, *estimate, *expand)
                    }
                },
            },
    {
        let (next, count): (usize, usize) = match &self.phase {
            ReplacePhase::Opening { next, count } => (*next, *count),
            _ => (0, 0),
        };
        let observed = self.run.observe(candidate);
        assert(nothing_written(self.run)) by {
            assert forall|i: int| 0 <= i < self.run.written@.len() implies (
            #[trigger] self.run.written@[i]) is None by {
                if i < old(self).run.written@.len() {
                    assert(old(self).run.written@[i] is None);
                }
            }
        }
        if let Err(response) = observed {
            return self.finish(response);
        }
        if next + 1 < count {
            self.phase = ReplacePhase::Opening { next: next + 1, count };
            return ReplaceAction::Open(next + 1);
        }
        self.settle(estimate, expand)
    }

    /// Takes in what became of the commit that was asked for: how many replacements count as
    /// written, or the message about it.
    pub fn committed<F: Fn(&str) -> usize, G: Fn(usize) -> Option<usize>>(
        &mut self,
        outcome: Result<usize, String>,
        estimate: &F,
        expand: &G,
    ) -> (action: ReplaceAction)
        requires
            old(self).wf(),
            old(self).phase is Committing,
            forall|text: &str| #[trigger] call_requires(*estimate, (text,)),
            forall|required: usize| #[trigger] call_requires(*expand, (required,)),
        ensures
            final(self).wf(),
            final(self).allows(action),
            final(self).unreachable == old(self).unreachable,
            final(self).run.same_request(old(self).run),
            ({
                let order = old(self).phase->Committing_order@;
                let at = old(self).phase->Committing_at as int;
                let plan = old(self).run.plan();
                let written = old(self).run.written@;
                &&& match outcome {
                    Ok(matches) => {
                        &&& final(self).run.plan() == plan
                        &&& final(self).run.written@ == written.update(
                            order[at] as int,
                            Some(matches),
                        )
                    },
                    Err(message) => {
                        &&& final(self).run.plan() == plan.fail(
                            plan.analyzed[order[at] as int].path,
                            message@,
                        )
                        &&& final(self).run.written@ == written
                    },
                }
                &&& if at + 1 < order.len() {
                    asks_to_commit(*final(self), action, order, at + 1)
                } else {
                    ends_with_report(*final(self), action, *estimate, *expand)
                }
            }),
    {
        let mut phase = ReplacePhase::Over;
        std::mem::swap(&mut self.phase, &mut phase);
        let (order, at): (Vec<usize>, usize) = match phase {
            ReplacePhase::Committing { order, at } => (order, at),
            _ => (Vec::new(), 0),
        };
        assert(order@[at as int] < self.run.analyzed@.len());
        let count = order.len();
        self.run.record(order[at], outcome);
        if at + 1 < count {
            let next = order[at + 1];
            proof {
                assert(self.run.plan().analyzed == old(self).run.plan().analyzed);
                assert forall|i: int| at + 1 <= i < order@.len() implies self.run.written@[
                    #[trigger] order@[i] as int
                ] is None by {
                    assert(order@[i] != order@[at as int]);
                    assert(old(self).run.written@[order@[i] as int] is None);
                }
            }
            self.phase = ReplacePhase::Committing { order, at: at + 1 };
            return ReplaceAction::Commit(next);
        }
        let response = self.run.apply_report(&self.unreachable, estimate, expand);
        self.finish(response)
    }
}

} // verus!
