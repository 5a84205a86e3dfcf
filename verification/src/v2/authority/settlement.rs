//! Durable fences. Stopping a worker is not a wire cancellation: only these committing
//! transitions, and reconciliation, change authoritative outcomes.

use super::super::commitments::{Mutation, SessionIdentity};
use super::super::error::{ErrorCode, MAX_NUMBER};
use super::super::labels::{Digest, OperationId};
use super::super::messages::{self, Control, Scope, Work};
use super::super::numbers::{Disposition, Duration, Id, Number, Producer, State};
use super::super::records::{
    self, Diagnostic, Manifest, OperationReceipt, Outcome, WorkKey, WorkView,
};
use super::super::wire::Wire;
use super::accounts;
use super::evidence::WorkFence;
use super::scopes;
use super::store::{
    self, add_duration, authorize, increment, protocol, Access, AuthorityStore, ClockReading, Fault,
    Grants, Job, OperationRow, Permission, ScopeRow, SessionRow, StoreError, Tables, WorkRow,
};
use super::table;
use crate::cbor;
use vstd::prelude::*;

verus! {

/// The mutation that set a fence with the given outcome.
pub open spec fn fence_mutation(work: WorkKey, skip: bool) -> Mutation {
    if skip {
        Mutation::Skip { work }
    } else {
        Mutation::Cancel { work }
    }
}

/// The end state that a fence decides on.
pub open spec fn fence_end(skip: bool) -> u64 {
    if skip {
        State::SKIPPED
    } else {
        State::CANCELLED
    }
}

/// Work that has ended: its outcome is decided, it has a receipt, and no output.
pub open spec fn ended_view(
    view: WorkView,
    state: State,
    diagnostic: Option<Diagnostic>,
    at: Number,
    receipt_until: Number,
) -> WorkView {
    WorkView {
        state,
        terminal_at: Some(at),
        receipt_until: Some(receipt_until),
        output_until: None,
        manifest: None,
        diagnostic,
        ..view
    }
}

/// The job of work that has ended. What it holds of the payload store stays charged.
pub open spec fn ended_job(job: Option<Job>) -> Option<Job> {
    match job {
        Some(j) => Some(
            Job { stage: Number(4), lease_until: None, executor_live: false, ..j },
        ),
        None => None,
    }
}

/// The row of work that has ended.
pub open spec fn ended_row(
    row: WorkRow,
    state: State,
    diagnostic: Option<Diagnostic>,
    at: Number,
    receipt_until: Number,
) -> WorkRow {
    WorkRow {
        revision: Id((row.revision.0 + 1) as u64),
        view: ended_view(row.view, state, diagnostic, at, receipt_until),
        job: if row.view.admitted_at is Some {
            ended_job(row.job)
        } else {
            row.job
        },
        ..row
    }
}

/// Why work cannot be ended in a state that is no success, if it cannot.
pub open spec fn end_fault(
    row: WorkRow,
    state: State,
    diagnostic: Option<Diagnostic>,
    at: Number,
    retention: Duration,
) -> Option<Fault> {
    match store::later(at, retention) {
        None => Some(Fault::Refused(ErrorCode::LimitExceeded)),
        Some(until) => if !ended_view(row.view, state, diagnostic, at, until).valid() {
            Some(Fault::Refused(ErrorCode::FrameError))
        } else if row.view.admitted_at is Some && row.job is None {
            Some(Fault::Corrupt)
        } else if row.revision.0 >= MAX_NUMBER {
            Some(Fault::Refused(ErrorCode::LimitExceeded))
        } else {
            None
        },
    }
}

impl Tables {
    /// Whether every scope that the work opened has closed.
    pub open spec fn child_closed(self, generation: Id, view: WorkView) -> Result<bool, Fault> {
        match view.child {
            None => Ok(true),
            Some(child) => {
                let k = self.scope_at(generation, Number(child.scope.0));
                if k >= self.scopes.len() {
                    Err(Fault::Refused(ErrorCode::NotFound))
                } else {
                    Ok(self.scopes[k].summary is Some)
                }
            },
        }
    }

    /// The row of a unit of work after a fence was accepted, or why it is not. The first fence
    /// decides: a later one with another outcome is refused. Work that waits for a child scope is
    /// cancelling until that scope has closed.
    pub open spec fn fence_work(
        self,
        generation: Id,
        row: WorkRow,
        skip: bool,
        operation: OperationId,
        at: Number,
        retention: Duration,
    ) -> Result<WorkRow, Fault> {
        let end = State(fence_end(skip));
        let fenced = WorkRow { fence: Some(WorkFence { outcome: end, operation }), ..row };
        if row.view.state.terminal() {
            Ok(row)
        } else if self.open_fault(generation, row.view.work.scope) is Some {
            Err(self.open_fault(generation, row.view.work.scope)->0)
        } else if row.fence is Some {
            if row.fence->0.outcome == end {
                Ok(row)
            } else {
                Err(Fault::Refused(ErrorCode::Cancelled))
            }
        } else if store::later(at, retention) is None {
            Err(Fault::Refused(ErrorCode::LimitExceeded))
        } else {
            match self.child_closed(generation, row.view) {
                Err(fault) => Err(fault),
                Ok(true) => match end_fault(row, end, None, at, retention) {
                    Some(fault) => Err(fault),
                    None => Ok(
                        ended_row(fenced, end, None, at, store::later(at, retention)->0),
                    ),
                },
                Ok(false) => if row.revision.0 >= MAX_NUMBER {
                    Err(Fault::Refused(ErrorCode::LimitExceeded))
                } else {
                    Ok(
                        WorkRow {
                            revision: Id((row.revision.0 + 1) as u64),
                            view: WorkView {
                                state: State(State::CANCELLING),
                                diagnostic: None,
                                ..row.view
                            },
                            ..fenced
                        },
                    )
                },
            }
        }
    }

    pub open spec fn fence_entry_fault(
        self,
        mutation: Mutation,
        identity: SessionIdentity,
        operation: OperationId,
        grants: Grants,
        permission: Permission,
    ) -> Option<Fault> {
        if !mutation.committable(identity, Producer(0), operation) {
            Some(Fault::Refused(ErrorCode::FrameError))
        } else {
            self.session_fault(identity, grants, permission)
        }
    }

    /// No more operations may be retained for the session.
    pub open spec fn operations_full(self, generation: Id) -> bool {
        let session = self.sessions[self.session_at(generation)];
        session.operations >= session.binding.limits.operations.0
    }

    /// Why a fence on work that was not retained before is refused, if it is.
    pub open spec fn work_fence_fault(
        self,
        generation: Id,
        key: WorkKey,
        skip: bool,
        operation: OperationId,
        access: Access,
        clock: ClockReading,
    ) -> Option<Fault> {
        let found = self.work_of(generation, key);
        let row = self.work[found->Ok_0];
        let retention =
            self.sessions[self.session_at(generation)].binding.policy.receipt_retention_ms;
        let result = self.fence_work(generation, row, skip, operation, clock.utc_ms, retention);
        if found is Err {
            Some(found->Err_0)
        } else if self.operations_full(generation) {
            Some(Fault::Refused(ErrorCode::LimitExceeded))
        } else if !self.safe(clock) {
            Some(Fault::Refused(ErrorCode::ClockUnsafe))
        } else if result is Err {
            Some(result->Err_0)
        } else if !records::fence_rule(
            fence_disposition(row),
            result->Ok_0.view.state,
            fence_end(skip),
        ) || !result->Ok_0.view.state.valid() {
            Some(Fault::Refused(ErrorCode::FrameError))
        } else if !access.after.allows(fence_permission(skip)) {
            Some(Fault::Refused(ErrorCode::Unauthorized))
        } else {
            None
        }
    }

    /// The tables with one more operation retained for the session, at the given time.
    pub open spec fn with_operation(self, generation: Id, at: Number, kept: OperationRow) -> Tables {
        let i = self.session_at(generation);
        Tables {
            greatest: at.0,
            sessions: self.sessions.update(
                i,
                (SessionRow {
                    operations: (self.sessions[i].operations + 1) as u64,
                    ..self.sessions[i]
                }),
            ),
            operations: self.operations.push(kept),
            ..self
        }
    }

    /// The tables after a fence on work was committed, together with its receipt.
    pub open spec fn work_fenced(
        self,
        identity: SessionIdentity,
        key: WorkKey,
        skip: bool,
        operation: OperationId,
        clock: ClockReading,
        after: Tables,
        receipt: OperationReceipt,
    ) -> bool {
        let generation = identity.generation;
        let j = self.work_of(generation, key)->Ok_0;
        let row = self.work[j];
        let retention =
            self.sessions[self.session_at(generation)].binding.policy.receipt_retention_ms;
        let new = self.fence_work(
            generation,
            row,
            skip,
            operation,
            clock.utc_ms,
            retention,
        )->Ok_0;
        let kept = after.operations.last();
        &&& receipt.operation == operation
        &&& receipt.request_digest.0@ == fence_mutation(key, skip).operation_digest(
            identity,
            Producer(0),
            operation,
        )
        &&& receipt.body == fence_outcome(
            key,
            skip,
            clock.utc_ms,
            fence_disposition(row),
            new.view.state,
        )
        &&& kept.generation == generation
        &&& kept.originator == Producer(0)
        &&& kept.receipt.agrees(&receipt)
        &&& after == (Tables { work: self.work.update(j, new), ..self }).with_operation(
            generation,
            clock.utc_ms,
            kept,
        )
    }

    /// The scope row with its membership frozen.
    pub open spec fn frozen_scope(row: ScopeRow, revoke: bool) -> ScopeRow {
        ScopeRow { cancelled: true, revoked: row.revoked || revoke, ..row }
    }

    /// The tables with the membership of a scope frozen.
    pub open spec fn with_frozen(self, k: int, revoke: bool) -> Tables {
        Tables { scopes: self.scopes.update(k, Tables::frozen_scope(self.scopes[k], revoke)), ..self }
    }

    pub open spec fn scope_fence_fault(
        self,
        generation: Id,
        scope: Number,
        access: Access,
        clock: ClockReading,
    ) -> Option<Fault> {
        let retention =
            self.sessions[self.session_at(generation)].binding.policy.receipt_retention_ms;
        if self.operations_full(generation) {
            Some(Fault::Refused(ErrorCode::LimitExceeded))
        } else if !self.safe(clock) {
            Some(Fault::Refused(ErrorCode::ClockUnsafe))
        } else if store::later(clock.utc_ms, retention) is None {
            Some(Fault::Refused(ErrorCode::LimitExceeded))
        } else if self.scope_at(generation, scope) >= self.scopes.len() {
            Some(Fault::Refused(ErrorCode::NotFound))
        } else if !access.after.cancel {
            Some(Fault::Refused(ErrorCode::Unauthorized))
        } else {
            None
        }
    }

    pub open spec fn revoke_fault(
        self,
        identity: SessionIdentity,
        access: Access,
        clock: ClockReading,
    ) -> Option<Fault> {
        let i = self.session_at(identity.generation);
        if !access.before.revoke {
            Some(Fault::Refused(ErrorCode::Unauthorized))
        } else if !identity.valid() {
            Some(Fault::Refused(ErrorCode::FrameError))
        } else if !(identity.authority.0@ == self.authority.0@ && i < self.sessions.len()
            && self.sessions[i].binding.identity.owner.0@ == identity.owner.0@) {
            Some(Fault::Refused(ErrorCode::Unauthorized))
        } else if !self.safe(clock) {
            Some(Fault::Refused(ErrorCode::ClockUnsafe))
        } else if store::later(
            clock.utc_ms,
            self.sessions[i].binding.policy.receipt_retention_ms,
        ) is None {
            Some(Fault::Refused(ErrorCode::LimitExceeded))
        } else if self.scope_at(identity.generation, Number(0)) >= self.scopes.len() {
            Some(Fault::Refused(ErrorCode::NotFound))
        } else if !access.after.revoke {
            Some(Fault::Refused(ErrorCode::Unauthorized))
        } else {
            None
        }
    }

    /// Whether a retained fence is borne out by the immutable receipt of its operation.
    pub open spec fn fence_fault(
        self,
        identity: SessionIdentity,
        view: WorkView,
        fence: WorkFence,
        greatest: Number,
    ) -> Option<Fault> {
        let o = self.operation_at(identity.generation, Producer(0), fence.operation.0@);
        let receipt = self.operations[o].receipt;
        let skip = fence.outcome.0 == State::SKIPPED;
        let mutation = fence_mutation(view.work, skip);
        if o >= self.operations.len() || !fence_borne_out(receipt.body, view, fence, greatest) {
            Some(Fault::Corrupt)
        } else if !mutation.committable(identity, Producer(0), fence.operation) {
            Some(Fault::Refused(ErrorCode::FrameError))
        } else if receipt.request_digest.0@ != mutation.operation_digest(
            identity,
            Producer(0),
            fence.operation,
        ) {
            Some(Fault::Corrupt)
        } else {
            None
        }
    }
}

pub open spec fn fence_borne_out(
    body: Outcome,
    view: WorkView,
    fence: WorkFence,
    greatest: Number,
) -> bool {
    match body {
        Outcome::Cancelled { work, accepted_at, disposition, state_at_commit } => fence.outcome.0
            == State::CANCELLED && fence_times(
            work,
            accepted_at,
            disposition,
            state_at_commit,
            view,
            greatest,
        ),
        Outcome::Skipped { work, accepted_at, disposition, state_at_commit } => fence.outcome.0
            == State::SKIPPED && fence_times(
            work,
            accepted_at,
            disposition,
            state_at_commit,
            view,
            greatest,
        ),
        _ => false,
    }
}

/// The receipt speaks of this work, set the fence, and did so before the work ended.
pub open spec fn fence_times(
    work: WorkKey,
    accepted_at: Number,
    disposition: Disposition,
    state_at_commit: State,
    view: WorkView,
    greatest: Number,
) -> bool {
    &&& work == view.work
    &&& disposition.0 == 0
    &&& accepted_at.0 <= greatest.0
    &&& view.terminal_at matches Some(terminal) ==> accepted_at.0 <= terminal.0
    &&& state_at_commit.0 == State::CANCELLING || state_at_commit == view.state
}

pub open spec fn fence_permission(skip: bool) -> Permission {
    if skip {
        Permission::Skip
    } else {
        Permission::Cancel
    }
}

/// A fence on work that had already ended came too late.
pub open spec fn fence_disposition(row: WorkRow) -> Disposition {
    if row.view.state.terminal() {
        Disposition(1)
    } else {
        Disposition(0)
    }
}

pub open spec fn fence_outcome(
    work: WorkKey,
    skip: bool,
    accepted_at: Number,
    disposition: Disposition,
    state_at_commit: State,
) -> Outcome {
    if skip {
        Outcome::Skipped { work, accepted_at, disposition, state_at_commit }
    } else {
        Outcome::Cancelled { work, accepted_at, disposition, state_at_commit }
    }
}

/// A fence receipt can be sent in a control frame, whatever limit was negotiated.
pub proof fn law_fence_receipt_fits(receipt: OperationReceipt, limit: usize)
    requires
        receipt.valid(),
        messages::limit_in_range(limit),
    ensures
        receipt.body is Cancelled ==> Control::Work(
            Work::Cancelled { request: Id(MAX_NUMBER), receipt },
        ).sendable(limit),
        receipt.body is Skipped ==> Control::Work(
            Work::Skipped { request: Id(MAX_NUMBER), receipt },
        ).sendable(limit),
        receipt.body is ScopeCancelled ==> Control::Scope(
            Scope::Cancelled { request: Id(MAX_NUMBER), receipt },
        ).sendable(limit),
{
    cbor::lemma_head(0, MAX_NUMBER as nat);
    cbor::lemma_head(0, 3);
    cbor::lemma_head(0, 4);
    cbor::lemma_head(0, 5);
    cbor::lemma_head(0, 7);
    cbor::lemma_head(0, 9);
    cbor::lemma_head(0, 11);
    cbor::lemma_head(2, 16);
    cbor::lemma_head(2, 32);
    cbor::lemma_head(4, 3);
    cbor::lemma_head(4, 5);
    match receipt.body {
        Outcome::Cancelled { work, accepted_at, disposition, state_at_commit } => {
            lemma_fence_fields(work, accepted_at, disposition, state_at_commit);
        },
        Outcome::Skipped { work, accepted_at, disposition, state_at_commit } => {
            lemma_fence_fields(work, accepted_at, disposition, state_at_commit);
        },
        Outcome::ScopeCancelled { scope, accepted_at } => {
            cbor::lemma_head(0, scope.0 as nat);
            cbor::lemma_head(0, accepted_at.0 as nat);
        },
        _ => {},
    }
}

proof fn lemma_fence_fields(
    work: WorkKey,
    accepted_at: Number,
    disposition: Disposition,
    state: State,
)
    ensures
        (work, (accepted_at, (disposition, state))).wire().len() <= 63,
{
    cbor::lemma_head(4, 3);
    cbor::lemma_head(0, work.scope.0 as nat);
    cbor::lemma_head(0, work.producer.0 as nat);
    cbor::lemma_head(0, work.entity.0 as nat);
    cbor::lemma_head(0, accepted_at.0 as nat);
    cbor::lemma_head(0, disposition.0 as nat);
    cbor::lemma_head(0, state.0 as nat);
}

/// What a unit of work had before its end.
pub struct Ended {
    index: usize,
    revision: Id,
    state: State,
    terminal_at: Option<Number>,
    receipt_until: Option<Number>,
    output_until: Option<Number>,
    manifest: Option<Manifest>,
    diagnostic: Option<Diagnostic>,
    job: Option<Job>,
    row: Ghost<WorkRow>,
}

impl View for Ended {
    type V = WorkRow;

    closed spec fn view(&self) -> WorkRow {
        self.row@
    }
}

impl Ended {
    /// Where the row stands.
    pub closed spec fn place(self) -> int {
        self.index as int
    }

    pub closed spec fn well_formed(self) -> bool {
        let row = self.row@;
        &&& self.revision == row.revision
        &&& self.state == row.view.state
        &&& self.terminal_at == row.view.terminal_at
        &&& self.receipt_until == row.view.receipt_until
        &&& self.output_until == row.view.output_until
        &&& self.manifest == row.view.manifest
        &&& self.diagnostic == row.view.diagnostic
        &&& self.job == row.job
    }

    /// The row is the one that was ended.
    pub open spec fn fits(self, row: WorkRow) -> bool {
        exists|state: State, diagnostic: Option<Diagnostic>, at: Number, until: Number|
            row == #[trigger] ended_row(self@, state, diagnostic, at, until)
    }
}

impl AuthorityStore {
    /// Whether every scope that the work opened has closed.
    pub fn is_child_closed(&self, generation: Id, view: &WorkView) -> (r: Result<bool, StoreError>)
        ensures
            match r {
                Ok(closed) => self@.child_closed(generation, *view) == Ok::<bool, Fault>(closed),
                Err(e) => self@.child_closed(generation, *view) == Err::<bool, Fault>(e.fault()),
            },
    {
        match &view.child {
            None => Ok(true),
            Some(child) => {
                let k = self.load_scope(generation, Number(child.scope.0))?;
                Ok(self.scopes[k].summary.is_some())
            },
        }
    }

    /// Holds a retained fence against the receipt of the operation that set it.
    pub fn verify_fence(
        &self,
        identity: &SessionIdentity,
        view: &WorkView,
        fence: &WorkFence,
        greatest: Number,
    ) -> (r: Result<(), StoreError>)
        ensures
            match r {
                Ok(_) => self@.fence_fault(*identity, *view, *fence, greatest) is None,
                Err(e) => self@.fence_fault(*identity, *view, *fence, greatest) == Some(e.fault()),
            },
    {
        let o = match self.find_operation(identity.generation, Producer(0), fence.operation) {
            Some(o) => o,
            None => {
                return Err(StoreError::Corrupt("work fence receipt missing"));
            },
        };
        let receipt = &self.operations[o].receipt;
        let skip = fence.outcome.0 == State::SKIPPED;
        let mutation = if skip {
            Mutation::Skip { work: view.work }
        } else {
            Mutation::Cancel { work: view.work }
        };
        let valid = match &receipt.body {
            Outcome::Cancelled { work, accepted_at, disposition, state_at_commit } =>
            fence.outcome.0 == State::CANCELLED && *work == view.work && disposition.0 == 0
                && accepted_at.0 <= greatest.0 && (match view.terminal_at {
                Some(terminal) => accepted_at.0 <= terminal.0,
                None => true,
            }) && (state_at_commit.0 == State::CANCELLING || *state_at_commit == view.state),
            Outcome::Skipped { work, accepted_at, disposition, state_at_commit } =>
            fence.outcome.0 == State::SKIPPED && *work == view.work && disposition.0 == 0
                && accepted_at.0 <= greatest.0 && (match view.terminal_at {
                Some(terminal) => accepted_at.0 <= terminal.0,
                None => true,
            }) && (state_at_commit.0 == State::CANCELLING || *state_at_commit == view.state),
            _ => false,
        };
        if !valid {
            return Err(StoreError::Corrupt("work fence receipt binding changed"));
        }
        let digest = match mutation.digest(identity, Producer(0), fence.operation) {
            Ok(digest) => digest,
            Err(e) => {
                return Err(StoreError::Protocol(e));
            },
        };
        if !receipt.request_digest.same(&digest) {
            return Err(StoreError::Corrupt("work fence receipt binding changed"));
        }
        Ok(())
    }

    /// The retained receipt of an operation with the same parameters.
    fn operation_replay(
        &self,
        generation: Id,
        operation: OperationId,
        digest: &Digest,
    ) -> (r: Result<Option<OperationReceipt>, StoreError>)
        ensures
            match r {
                Ok(Some(receipt)) => self@.replay(generation, operation.0@, digest.0@) matches Some(
                    Ok(i),
                ) && receipt.agrees(&self@.operations[i].receipt),
                Ok(None) => self@.replay(generation, operation.0@, digest.0@) is None,
                Err(e) => self@.replay(generation, operation.0@, digest.0@) == Some(
                    Err::<int, Fault>(e.fault()),
                ),
            },
    {
        match self.find_operation(generation, Producer(0), operation) {
            None => Ok(None),
            Some(i) => {
                if !self.operations[i].receipt.request_digest.same(digest) {
                    return Err(protocol(ErrorCode::Conflict, "cancellation operation changed"));
                }
                Ok(Some(self.operations[i].receipt.duplicate()))
            },
        }
    }

    /// Whether work can be ended in the given state.
    pub fn check_end(
        &self,
        j: usize,
        state: State,
        diagnostic: &Option<Diagnostic>,
        at: Number,
        retention: Duration,
    ) -> (r: Result<Number, StoreError>)
        requires
            j < self@.work.len(),
        ensures
            match r {
                Ok(until) => end_fault(
                    self@.work[j as int],
                    state,
                    *diagnostic,
                    at,
                    retention,
                ) is None && store::later(at, retention) == Some(until),
                Err(e) => end_fault(self@.work[j as int], state, *diagnostic, at, retention)
                    == Some(e.fault()),
            },
    {
        let until = add_duration(at, retention)?;
        let mut view = self.work[j].view.duplicate();
        view.state = state;
        view.terminal_at = Some(at);
        view.receipt_until = Some(until);
        view.output_until = None;
        view.manifest = None;
        view.diagnostic = diagnostic.duplicate();
        proof {
            let expected = ended_view(self@.work[j as int].view, state, *diagnostic, at, until);
            assert(view.agrees(&expected));
            WorkView::agrees_carries(&view, &expected);
        }
        match view.check() {
            Ok(_) => {},
            Err(e) => {
                return Err(StoreError::Protocol(e));
            },
        }
        if self.work[j].view.admitted_at.is_some() && self.work[j].job.is_none() {
            return Err(StoreError::Corrupt("admitted work has no job"));
        }
        increment(self.work[j].revision.0)?;
        Ok(until)
    }

    /// Ends work that `check_end` allowed to end, and hands back what it had before. Input and output
    /// liveness stay charged until the separate retention pass.
    pub fn end_work(
        &mut self,
        j: usize,
        state: State,
        diagnostic: Option<Diagnostic>,
        at: Number,
        receipt_until: Number,
    ) -> (ended: Ended)
        requires
            j < old(self)@.work.len(),
            old(self)@.work[j as int].revision.0 < MAX_NUMBER,
        ensures
            final(self)@ == (Tables {
                work: old(self)@.work.update(
                    j as int,
                    ended_row(old(self)@.work[j as int], state, diagnostic, at, receipt_until),
                ),
                ..old(self)@
            }),
            ended.place() == j,
            ended@ == old(self)@.work[j as int],
            ended.well_formed(),
    {
        let ghost t = self@;
        let mut manifest: Option<Manifest> = None;
        std::mem::swap(&mut manifest, &mut self.work[j].view.manifest);
        let mut previous = diagnostic;
        std::mem::swap(&mut previous, &mut self.work[j].view.diagnostic);
        let ended = Ended {
            index: j,
            revision: self.work[j].revision,
            state: self.work[j].view.state,
            terminal_at: self.work[j].view.terminal_at,
            receipt_until: self.work[j].view.receipt_until,
            output_until: self.work[j].view.output_until,
            manifest,
            diagnostic: previous,
            job: self.work[j].job,
            row: Ghost(t.work[j as int]),
        };
        self.work[j].view.state = state;
        self.work[j].view.terminal_at = Some(at);
        self.work[j].view.receipt_until = Some(receipt_until);
        self.work[j].view.output_until = None;
        self.work[j].revision = Id(self.work[j].revision.0 + 1);
        if self.work[j].view.admitted_at.is_some() {
            match self.work[j].job {
                Some(job) => {
                    self.work[j].job = Some(
                        Job {
                            stage: Number(4),
                            lease_until: None,
                            executor_live: false,
                            input_live: job.input_live,
                            outputs_live: job.outputs_live,
                            release: job.release,
                        },
                    );
                },
                None => {},
            }
        }
        assert(self.work@ =~= t.work.update(
            j as int,
            ended_row(t.work[j as int], state, diagnostic, at, receipt_until),
        ));
        ended
    }

    /// Takes back the end of a unit of work.
    pub fn restore_work(&mut self, ended: Ended)
        requires
            ended.well_formed(),
            0 <= ended.place() < old(self)@.work.len(),
            ended.fits(old(self)@.work[ended.place()]),
        ensures
            final(self)@ == (Tables {
                work: old(self)@.work.update(ended.place(), ended@),
                ..old(self)@
            }),
    {
        let ghost t = self@;
        let j = ended.index;
        self.work[j].view.manifest = ended.manifest;
        self.work[j].view.diagnostic = ended.diagnostic;
        self.work[j].view.state = ended.state;
        self.work[j].view.terminal_at = ended.terminal_at;
        self.work[j].view.receipt_until = ended.receipt_until;
        self.work[j].view.output_until = ended.output_until;
        self.work[j].revision = ended.revision;
        self.work[j].job = ended.job;
        assert(self.work@ =~= t.work.update(j as int, ended@));
    }

    pub fn cancel_work(
        &mut self,
        identity: &SessionIdentity,
        operation: OperationId,
        key: &WorkKey,
        access: &Access,
        clock: ClockReading,
    ) -> (r: Result<OperationReceipt, StoreError>)
        requires
            old(self)@.well_formed(),
        ensures
            final(self)@.well_formed(),
            fence_decided(
                old(self)@,
                *identity,
                operation,
                *key,
                false,
                *access,
                clock,
                r,
                final(self)@,
            ),
    {
        self.work_fence(identity, operation, key, false, access, clock)
    }

    pub fn skip_work(
        &mut self,
        identity: &SessionIdentity,
        operation: OperationId,
        key: &WorkKey,
        access: &Access,
        clock: ClockReading,
    ) -> (r: Result<OperationReceipt, StoreError>)
        requires
            old(self)@.well_formed(),
        ensures
            final(self)@.well_formed(),
            fence_decided(
                old(self)@,
                *identity,
                operation,
                *key,
                true,
                *access,
                clock,
                r,
                final(self)@,
            ),
    {
        self.work_fence(identity, operation, key, true, access, clock)
    }

    fn work_fence(
        &mut self,
        identity: &SessionIdentity,
        operation: OperationId,
        key: &WorkKey,
        skip: bool,
        access: &Access,
        clock: ClockReading,
    ) -> (r: Result<OperationReceipt, StoreError>)
        requires
            old(self)@.well_formed(),
        ensures
            final(self)@.well_formed(),
            fence_decided(
                old(self)@,
                *identity,
                operation,
                *key,
                skip,
                *access,
                clock,
                r,
                final(self)@,
            ),
    {
        let ghost t = self@;
        let mutation = if skip {
            Mutation::Skip { work: *key }
        } else {
            Mutation::Cancel { work: *key }
        };
        let permission = if skip {
            Permission::Skip
        } else {
            Permission::Cancel
        };
        let digest = match mutation.digest(identity, Producer(0), operation) {
            Ok(digest) => digest,
            Err(e) => {
                return Err(StoreError::Protocol(e));
            },
        };
        let i = self.authorize_session(identity, &access.before, permission)?;
        let generation = identity.generation;
        match self.operation_replay(generation, operation, &digest)? {
            Some(receipt) => {
                return Ok(receipt);
            },
            None => {},
        }
        let j = self.find_work(generation, key)?;
        if self.sessions[i].operations >= self.sessions[i].binding.limits.operations.0 {
            return Err(
                protocol(ErrorCode::LimitExceeded, "session operation capacity exhausted"),
            );
        }
        let now = self.check_clock(clock)?;
        let retention = self.sessions[i].binding.policy.receipt_retention_ms;
        let end = State(
            if skip {
                State::SKIPPED
            } else {
                State::CANCELLED
            },
        );
        let terminal = self.work[j].view.state.is_terminal();
        let disposition = Disposition(
            if terminal {
                1
            } else {
                0
            },
        );
        // What is to happen to the work: nothing, its end, or its cancellation once its child
        // scope has closed.
        let mut ended: Option<Number> = None;
        let mut cancelling = false;
        if !terminal {
            self.unfenced(generation, key.scope)?;
            match self.work[j].fence {
                Some(fence) => {
                    if fence.outcome != end {
                        return Err(
                            protocol(
                                ErrorCode::Cancelled,
                                "first work fence has another outcome",
                            ),
                        );
                    }
                },
                None => {
                    add_duration(now, retention)?;
                    if self.is_child_closed(generation, &self.work[j].view)? {
                        ended = Some(self.check_end(j, end, &None, now, retention)?);
                    } else {
                        increment(self.work[j].revision.0)?;
                        cancelling = true;
                    }
                },
            }
        }
        let state_at_commit = if ended.is_some() {
            end
        } else if cancelling {
            State(State::CANCELLING)
        } else {
            self.work[j].view.state
        };
        let ghost result = t.fence_work(
            generation,
            t.work[j as int],
            skip,
            operation,
            now,
            retention,
        );
        assert(result is Ok && result->Ok_0.view.state == state_at_commit);
        let announced = if disposition.0 == 0 {
            state_at_commit.0 == State::CANCELLING || state_at_commit.0 == end.0
        } else {
            state_at_commit.is_terminal()
        };
        if !announced || state_at_commit.0 > 8 {
            return Err(protocol(ErrorCode::FrameError, "invalid fence disposition/state"));
        }
        authorize(&access.after, permission)?;
        let body = if skip {
            Outcome::Skipped { work: *key, accepted_at: now, disposition, state_at_commit }
        } else {
            Outcome::Cancelled { work: *key, accepted_at: now, disposition, state_at_commit }
        };
        let receipt = OperationReceipt { operation, request_digest: digest, body };
        match ended {
            Some(until) => {
                self.work[j].fence = Some(WorkFence { outcome: end, operation });
                self.end_work(j, end, None, now, until);
            },
            None => {
                if cancelling {
                    self.work[j].fence = Some(WorkFence { outcome: end, operation });
                    self.work[j].view.state = State(State::CANCELLING);
                    self.work[j].view.diagnostic = None;
                    self.work[j].revision = Id(self.work[j].revision.0 + 1);
                }
            },
        }
        assert(self@ == (Tables { work: t.work.update(j as int, result->Ok_0), ..t })) by {
            assert(self.work@ =~= t.work.update(j as int, result->Ok_0));
        }
        self.retain_operation(i, generation, &receipt, now);
        proof {
            lemma_fence_keeps_profile(
                t,
                j as int,
                generation,
                skip,
                operation,
                now,
                retention,
                result->Ok_0,
            );
            lemma_fence_keeps_order(t, self@);
        }
        Ok(receipt)
    }

    /// Retains the receipt of an operation of the session, and the time of its commitment.
    pub fn retain_operation(
        &mut self,
        i: usize,
        generation: Id,
        receipt: &OperationReceipt,
        now: Number,
    )
        requires
            i < old(self)@.sessions.len(),
            i == old(self)@.session_at(generation),
            old(self)@.sessions[i as int].operations < u64::MAX,
        ensures
            ({
                let kept = final(self)@.operations.last();
                &&& kept.generation == generation
                &&& kept.originator == Producer(0)
                &&& kept.receipt.agrees(receipt)
                &&& final(self)@ == old(self)@.with_operation(generation, now, kept)
            }),
    {
        let ghost t = self@;
        self.sessions[i].operations = self.sessions[i].operations + 1;
        self.operations.push(
            OperationRow { generation, originator: Producer(0), receipt: receipt.duplicate() },
        );
        self.greatest = now.0;
        proof {
            let kept = self.operations@.last();
            assert(self.operations@ =~= t.operations.push(kept));
            assert(self.sessions@ =~= t.with_operation(generation, now, kept).sessions);
        }
    }

    /// Freezes membership immediately. Computing its seal and descendant closure may take bounded
    /// background batches, but the ancestor fence already excludes writes.
    pub fn scope_fence(&mut self, k: usize, revoke: bool) -> (changed: bool)
        requires
            k < old(self)@.scopes.len(),
        ensures
            changed == !(old(self)@.scopes[k as int].cancelled && (!revoke || old(
                self,
            )@.scopes[k as int].revoked)),
            final(self)@ == old(self)@.with_frozen(k as int, revoke),
            !changed ==> final(self)@ == old(self)@,
    {
        let ghost t = self@;
        if self.scopes[k].cancelled && (!revoke || self.scopes[k].revoked) {
            assert(self.scopes@ =~= t.with_frozen(k as int, revoke).scopes);
            return false;
        }
        self.scopes[k].cancelled = true;
        if revoke {
            self.scopes[k].revoked = true;
        }
        assert(self.scopes@ =~= t.with_frozen(k as int, revoke).scopes);
        true
    }

    pub fn cancel_scope(
        &mut self,
        identity: &SessionIdentity,
        operation: OperationId,
        scope: Number,
        access: &Access,
        clock: ClockReading,
    ) -> (r: Result<OperationReceipt, StoreError>)
        requires
            old(self)@.well_formed(),
        ensures
            final(self)@.well_formed(),
            scope_cancel_decided(
                old(self)@,
                *identity,
                operation,
                scope,
                *access,
                clock,
                r,
                final(self)@,
            ),
    {
        let ghost t = self@;
        let mutation = Mutation::ScopeCancel { scope };
        let digest = match mutation.digest(identity, Producer(0), operation) {
            Ok(digest) => digest,
            Err(e) => {
                return Err(StoreError::Protocol(e));
            },
        };
        let i = self.authorize_session(identity, &access.before, Permission::Cancel)?;
        let generation = identity.generation;
        match self.operation_replay(generation, operation, &digest)? {
            Some(receipt) => {
                return Ok(receipt);
            },
            None => {},
        }
        if self.sessions[i].operations >= self.sessions[i].binding.limits.operations.0 {
            return Err(
                protocol(ErrorCode::LimitExceeded, "session operation capacity exhausted"),
            );
        }
        let now = self.check_clock(clock)?;
        add_duration(now, self.sessions[i].binding.policy.receipt_retention_ms)?;
        let k = self.load_scope(generation, scope)?;
        authorize(&access.after, Permission::Cancel)?;
        self.scope_fence(k, false);
        let receipt = OperationReceipt {
            operation,
            request_digest: digest,
            body: Outcome::ScopeCancelled { scope, accepted_at: now },
        };
        self.retain_operation(i, generation, &receipt, now);
        proof {
            lemma_fence_keeps_order(t, self@);
        }
        Ok(receipt)
    }

    /// Local operator action, not an unauthenticated wire request. The authorization
    /// provider must explicitly permit it independently of caller access.
    pub fn revoke_session(
        &mut self,
        identity: &SessionIdentity,
        access: &Access,
        clock: ClockReading,
    ) -> (r: Result<(), StoreError>)
        requires
            old(self)@.well_formed(),
        ensures
            final(self)@.well_formed(),
            revocation_decided(old(self)@, *identity, *access, clock, r, final(self)@),
    {
        let ghost t = self@;
        authorize(&access.before, Permission::Revoke)?;
        if identity.authority.check().is_err() || identity.owner.check().is_err()
            || identity.generation.check().is_err() {
            return Err(protocol(ErrorCode::FrameError, "invalid session identity"));
        }
        if !identity.authority.same(&self.authority) {
            return Err(protocol(ErrorCode::Unauthorized, "authority access denied"));
        }
        let i = match self.find_session(identity.generation) {
            Some(i) => i,
            None => {
                return Err(protocol(ErrorCode::Unauthorized, "authority access denied"));
            },
        };
        if !self.sessions[i].binding.identity.owner.same(&identity.owner) {
            return Err(protocol(ErrorCode::Unauthorized, "authority access denied"));
        }
        let now = self.check_clock(clock)?;
        add_duration(now, self.sessions[i].binding.policy.receipt_retention_ms)?;
        let k = self.load_scope(identity.generation, Number(0))?;
        authorize(&access.after, Permission::Revoke)?;
        if self.scope_fence(k, true) {
            self.greatest = now.0;
        }
        proof {
            lemma_fence_keeps_order(t, self@);
        }
        Ok(())
    }
}

/// What the cancellation of a scope comes to: a refusal that changes nothing, the retained receipt of
/// the same request, or the membership frozen with its receipt.
pub open spec fn scope_cancel_decided(
    t: Tables,
    identity: SessionIdentity,
    operation: OperationId,
    scope: Number,
    access: Access,
    clock: ClockReading,
    r: Result<OperationReceipt, StoreError>,
    after: Tables,
) -> bool {
    let mutation = Mutation::ScopeCancel { scope };
    let generation = identity.generation;
    let entry = t.fence_entry_fault(
        mutation,
        identity,
        operation,
        access.before,
        Permission::Cancel,
    );
    let digest = mutation.operation_digest(identity, Producer(0), operation);
    let replay = t.replay(generation, operation.0@, digest);
    let k = t.scope_at(generation, scope);
    let kept = after.operations.last();
    match r {
        Ok(receipt) => entry is None && match replay {
            Some(Ok(i)) => after == t && receipt.agrees(&t.operations[i].receipt),
            Some(Err(_)) => false,
            None => {
                &&& t.scope_fence_fault(generation, scope, access, clock) is None
                &&& receipt.operation == operation
                &&& receipt.request_digest.0@ == digest
                &&& receipt.body == (Outcome::ScopeCancelled { scope, accepted_at: clock.utc_ms })
                &&& kept.generation == generation
                &&& kept.originator == Producer(0)
                &&& kept.receipt.agrees(&receipt)
                &&& after == t.with_frozen(k, false).with_operation(generation, clock.utc_ms, kept)
            },
        },
        Err(e) => after == t && Some(e.fault()) == match entry {
            Some(fault) => Some(fault),
            None => match replay {
                Some(Ok(_)) => None,
                Some(Err(fault)) => Some(fault),
                None => t.scope_fence_fault(generation, scope, access, clock),
            },
        },
    }
}

/// What a revocation comes to: a refusal that changes nothing, or the root frozen and marked.
pub open spec fn revocation_decided(
    t: Tables,
    identity: SessionIdentity,
    access: Access,
    clock: ClockReading,
    r: Result<(), StoreError>,
    after: Tables,
) -> bool {
    let k = t.scope_at(identity.generation, Number(0));
    let row = t.scopes[k];
    match r {
        Ok(_) => t.revoke_fault(identity, access, clock) is None && after == (if row.cancelled
            && row.revoked {
            t
        } else {
            Tables { greatest: clock.utc_ms.0, ..t.with_frozen(k, true) }
        }),
        Err(e) => t.revoke_fault(identity, access, clock) == Some(e.fault()) && after == t,
    }
}

/// What a request for a fence comes to: a refusal that changes nothing, the retained receipt of
/// the same request, or the committed fence with its receipt.
pub open spec fn fence_decided(
    t: Tables,
    identity: SessionIdentity,
    operation: OperationId,
    key: WorkKey,
    skip: bool,
    access: Access,
    clock: ClockReading,
    r: Result<OperationReceipt, StoreError>,
    after: Tables,
) -> bool {
    let mutation = fence_mutation(key, skip);
    let generation = identity.generation;
    let entry = t.fence_entry_fault(
        mutation,
        identity,
        operation,
        access.before,
        fence_permission(skip),
    );
    let replay = t.replay(
        generation,
        operation.0@,
        mutation.operation_digest(identity, Producer(0), operation),
    );
    match r {
        Ok(receipt) => entry is None && match replay {
            Some(Ok(i)) => after == t && receipt.agrees(&t.operations[i].receipt),
            Some(Err(_)) => false,
            None => {
                &&& t.work_fence_fault(generation, key, skip, operation, access, clock) is None
                &&& t.work_fenced(identity, key, skip, operation, clock, after, receipt)
            },
        },
        Err(e) => after == t && Some(e.fault()) == match entry {
            Some(fault) => Some(fault),
            None => match replay {
                Some(Ok(_)) => None,
                Some(Err(fault)) => Some(fault),
                None => t.work_fence_fault(generation, key, skip, operation, access, clock),
            },
        },
    }
}

/// A fence that is asked for again after it was committed is answered with its receipt. The same
/// operation with other parameters is refused.
pub proof fn law_fence_is_replayed(
    t: Tables,
    identity: SessionIdentity,
    key: WorkKey,
    skip: bool,
    operation: OperationId,
    clock: ClockReading,
    after: Tables,
    receipt: OperationReceipt,
    other: Seq<u8>,
)
    requires
        t.replay(identity.generation, operation.0@, receipt.request_digest.0@) is None,
        t.work_fenced(identity, key, skip, operation, clock, after, receipt),
        other != receipt.request_digest.0@,
    ensures
        after.replay(identity.generation, operation.0@, other) == Some(
            Err::<int, Fault>(Fault::Refused(ErrorCode::Conflict)),
        ),
        after.replay(identity.generation, operation.0@, receipt.request_digest.0@) == Some(
            Ok::<int, Fault>(t.operations.len() as int),
        ),
        after.operations[t.operations.len() as int].receipt.agrees(&receipt),
{
    assert(after.operations.drop_last() =~= t.operations);
    scopes::lemma_kept_is_found(t, after, identity.generation, operation.0@);
}

/// A fence is borne out by the receipt that was committed with it.
pub proof fn law_new_fence_is_borne_out(
    t: Tables,
    identity: SessionIdentity,
    key: WorkKey,
    skip: bool,
    operation: OperationId,
    access: Access,
    clock: ClockReading,
    after: Tables,
    receipt: OperationReceipt,
)
    requires
        fence_mutation(key, skip).committable(identity, Producer(0), operation),
        t.replay(identity.generation, operation.0@, receipt.request_digest.0@) is None,
        t.work_fence_fault(identity.generation, key, skip, operation, access, clock) is None,
        t.work_fenced(identity, key, skip, operation, clock, after, receipt),
        !t.work[t.work_of(identity.generation, key)->Ok_0].view.state.terminal(),
        t.work[t.work_of(identity.generation, key)->Ok_0].view.valid(),
        t.work[t.work_of(identity.generation, key)->Ok_0].fence is None,
    ensures
        ({
            let row = after.work[t.work_of(identity.generation, key)->Ok_0];
            &&& row.fence == Some(WorkFence { outcome: State(fence_end(skip)), operation })
            &&& after.fence_fault(identity, row.view, row.fence->0, Number(after.greatest)) is None
        }),
{
    let j = t.work_of(identity.generation, key)->Ok_0;
    table::lemma_index_where(t.work, store::is_work(identity.generation, key.scope, key.entity));
    assert(t.work[j].view.work == key);
    assert(after.operations.drop_last() =~= t.operations);
    scopes::lemma_kept_is_found(t, after, identity.generation, operation.0@);
}

/// Work that a fence holds may end at any later time: the fence stays borne out.
pub proof fn law_ending_keeps_the_fence_borne_out(
    body: Outcome,
    view: WorkView,
    fence: WorkFence,
    greatest: Number,
    diagnostic: Option<Diagnostic>,
    at: Number,
    until: Number,
)
    requires
        fence_borne_out(body, view, fence, greatest),
        view.state.0 == State::CANCELLING,
        greatest.0 <= at.0,
    ensures
        fence_borne_out(body, ended_view(view, fence.outcome, diagnostic, at, until), fence, at),
{
}

/// Work that has ended is not changed by any fence.
pub proof fn law_ended_work_keeps_its_end(
    t: Tables,
    generation: Id,
    row: WorkRow,
    skip: bool,
    operation: OperationId,
    at: Number,
    retention: Duration,
)
    requires
        row.view.state.terminal(),
    ensures
        t.fence_work(generation, row, skip, operation, at, retention) == Ok::<WorkRow, Fault>(row),
{
}

/// The first fence decides: whatever comes after it, no later fence changes the work.
pub proof fn law_first_fence_decides(
    t: Tables,
    generation: Id,
    row: WorkRow,
    skip: bool,
    operation: OperationId,
    at: Number,
    retention: Duration,
    later: Tables,
    other_skip: bool,
    other: OperationId,
    later_at: Number,
)
    requires
        row.fence is None,
        !row.view.state.terminal(),
        t.fence_work(generation, row, skip, operation, at, retention) is Ok,
    ensures
        ({
            let fenced = t.fence_work(generation, row, skip, operation, at, retention)->Ok_0;
            let again = later.fence_work(
                generation,
                fenced,
                other_skip,
                other,
                later_at,
                retention,
            );
            &&& fenced.fence == Some(WorkFence { outcome: State(fence_end(skip)), operation })
            &&& again matches Ok(unchanged) ==> unchanged == fenced
            &&& fenced.view.state.terminal() ==> again == Ok::<WorkRow, Fault>(fenced)
            &&& !fenced.view.state.terminal() && skip != other_skip ==> again is Err
            &&& !fenced.view.state.terminal() && skip != other_skip && (later.open_fault(
                generation,
                row.view.work.scope,
            ) matches Some(fault) ==> fault == Fault::Refused(ErrorCode::Cancelled))
                ==> again == Err::<WorkRow, Fault>(Fault::Refused(ErrorCode::Cancelled))
        }),
{
}

/// Fenced work keeps to the profile of its session.
proof fn lemma_fence_keeps_profile(
    t: Tables,
    j: int,
    generation: Id,
    skip: bool,
    operation: OperationId,
    at: Number,
    retention: Duration,
    fenced: WorkRow,
)
    requires
        t.well_formed(),
        0 <= j < t.work.len(),
        t.fence_work(generation, t.work[j], skip, operation, at, retention) == Ok::<WorkRow, Fault>(
            fenced,
        ),
    ensures
        t.profiled(fenced),
{
    accounts::lemma_profiled(t, j);
}

/// Changes that keep every row's identity keep the tables in order.
pub proof fn lemma_fence_keeps_order(t: Tables, after: Tables)
    requires
        t.arranged(),
        after.greatest >= t.greatest,
        accounts::same_sessions(t, after),
        accounts::same_scopes(t, after),
        forall|j: int|
            0 <= j < t.work.len() ==> #[trigger] after.work[j] == t.work[j] || t.profiled(
                after.work[j],
            ),
        after.last_generation == t.last_generation,
        after.work.len() == t.work.len(),
        after.scopes.len() == t.scopes.len(),
        forall|i: int|
            0 <= i < t.work.len() ==> (#[trigger] after.work[i]).row == t.work[i].row
                && after.work[i].generation == t.work[i].generation && after.work[i].view.work
                == t.work[i].view.work,
        forall|i: int|
            0 <= i < t.scopes.len() ==> (#[trigger] after.scopes[i]).row == t.scopes[i].row
                && after.scopes[i].generation == t.scopes[i].generation && after.scopes[i].scope
                == t.scopes[i].scope && after.scopes[i].last_entity == t.scopes[i].last_entity,
    ensures
        after.arranged(),
{
    accounts::lemma_rows_stay(t, after);
    assert forall|i: int, j: int| 0 <= i < j < after.work.len() implies (
    #[trigger] after.work[i]).row < (#[trigger] after.work[j]).row by {
        assert(t.work[i].row < t.work[j].row);
    }
    assert forall|i: int, j: int| 0 <= i < j < after.scopes.len() implies (
    #[trigger] after.scopes[i]).row < (#[trigger] after.scopes[j]).row by {
        assert(t.scopes[i].row < t.scopes[j].row);
    }
    assert forall|i: int, j: int|
        0 <= i < j < after.work.len() && (#[trigger] after.work[i]).generation == (
        #[trigger] after.work[j]).generation && after.work[i].view.work.scope
            == after.work[j].view.work.scope implies after.work[i].view.work.entity.0
        < after.work[j].view.work.entity.0 by {
        assert(t.work[i].generation == t.work[j].generation);
    }
    assert forall|i: int, k: int|
        0 <= i < after.work.len() && 0 <= k < after.scopes.len() && (
        #[trigger] after.work[i]).generation == (#[trigger] after.scopes[k]).generation
            && after.work[i].view.work.scope == after.scopes[k].scope
            implies after.work[i].view.work.entity.0 <= after.scopes[k].last_entity by {
        assert(t.work[i].generation == t.scopes[k].generation);
    }
    assert forall|i: int, j: int|
        0 <= i < j < after.scopes.len() && (#[trigger] after.scopes[i]).generation == (
        #[trigger] after.scopes[j]).generation implies after.scopes[i].scope
        != after.scopes[j].scope by {
        assert(t.scopes[i].generation == t.scopes[j].generation);
    }
    assert forall|i: int| 0 <= i < after.scopes.len() implies (
    #[trigger] after.scopes[i]).generation.0 <= after.last_generation by {
        assert(t.scopes[i].generation.0 <= t.last_generation);
    }
    assert forall|i: int| 0 <= i < after.work.len() implies (
    #[trigger] after.work[i]).generation.0 <= after.last_generation by {
        assert(t.work[i].generation.0 <= t.last_generation);
    }
    if t.work.len() > 0 {
        assert(after.work.last().row == t.work.last().row);
    }
    if t.scopes.len() > 0 {
        assert(after.scopes.last().row == t.scopes.last().row);
    }
}

} // verus!
