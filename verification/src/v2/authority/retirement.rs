//! Irreversible session retirement, followed by bounded metadata deletion.
//! The immutable eligibility record and closed root survive every partial pass.
//! Generation and owner creation high-water marks are never deleted or reduced.

use super::super::error::ErrorCode;
use super::super::labels;
use super::super::numbers::{Id, Number};
use super::super::records::{ScopeSummary, WorkView};
use super::super::wire::Wire;
use super::accounts;
use super::evidence::{Issuer, Proof};
use super::store::{
    self, add_duration, protocol, AuthorityStore, ClockReading, Fault, OperationRow, RetirementRow,
    ScopeRow, SessionRow, StoreError, Tables, WorkRow,
};
use super::table;
use vstd::prelude::*;

verus! {

/// What the payload store still holds for a unit of work.
#[derive(Debug, Clone, Copy, PartialEq, Eq)]
pub struct PayloadStatus {
    pub row: u64,
    pub input_gone: bool,
    pub outputs_gone: bool,
}

pub open spec fn is_status(row: u64) -> spec_fn(PayloadStatus) -> bool {
    |s: PayloadStatus| s.row == row
}

/// Whether input and outputs of a unit of work are gone. What nothing is said of is not gone.
pub open spec fn payload_gone(statuses: Seq<PayloadStatus>, row: u64) -> (bool, bool) {
    let i = table::index_where(statuses, is_status(row));
    if i < statuses.len() {
        (statuses[i].input_gone, statuses[i].outputs_gone)
    } else {
        (false, false)
    }
}

pub fn find_status(statuses: &Vec<PayloadStatus>, row: u64) -> (r: (bool, bool))
    ensures
        r == payload_gone(statuses@, row),
{
    let ghost p = is_status(row);
    let mut i: usize = 0;
    while i < statuses.len()
        invariant
            i <= statuses@.len(),
            p == is_status(row),
            forall|j: int| 0 <= j < i ==> !p(#[trigger] statuses@[j]),
        decreases statuses@.len() - i,
    {
        if statuses[i].row == row {
            proof {
                table::lemma_index_unique(statuses@, p, i as int);
            }
            return (statuses[i].input_gone, statuses[i].outputs_gone);
        }
        i += 1;
    }
    proof {
        table::lemma_index_unique(statuses@, p, i as int);
    }
    (false, false)
}

/// Every promise that the work carries has run out by the cutoff.
pub open spec fn work_resolved(cutoff: Number, view: WorkView) -> bool {
    &&& view.state.terminal()
    &&& view.terminal_at matches Some(at) && at.0 <= cutoff.0
    &&& view.receipt_until matches Some(at) && at.0 <= cutoff.0
    &&& view.output_until matches Some(at) ==> at.0 <= cutoff.0
}

/// Nothing is held for the work any longer.
pub open spec fn resources_released(row: WorkRow, gone: Seq<PayloadStatus>) -> bool {
    row.view.admitted_at is Some ==> {
        &&& row.job matches Some(job) && !job.executor_live && !job.input_live && !job.outputs_live
        &&& payload_gone(gone, row.row) == (true, true)
    }
}

pub open spec fn of_generation(generation: Id) -> spec_fn(WorkRow) -> bool {
    |r: WorkRow| r.generation == generation
}

pub open spec fn operation_of(generation: Id) -> spec_fn(OperationRow) -> bool {
    |r: OperationRow| r.generation == generation
}

/// The index of the child scope with the greatest number, or a negative number.
pub open spec fn last_child_scope(s: Seq<ScopeRow>, generation: Id) -> int
    decreases s.len(),
{
    if s.len() == 0 {
        -1
    } else {
        let rest = last_child_scope(s.drop_last(), generation);
        let row = s.last();
        if row.generation == generation && row.scope.0 != 0 && (rest < 0 || row.scope.0
            > s[rest].scope.0) {
            s.len() - 1
        } else {
            rest
        }
    }
}

pub proof fn lemma_last_child_scope(s: Seq<ScopeRow>, generation: Id)
    ensures
        last_child_scope(s, generation) < s.len(),
        last_child_scope(s, generation) >= 0 ==> s[last_child_scope(s, generation)].generation
            == generation,
    decreases s.len(),
{
    if s.len() > 0 {
        lemma_last_child_scope(s.drop_last(), generation);
    }
}

/// The index of the newest session before a generation, or a negative number.
pub open spec fn newest_session(s: Seq<SessionRow>, before: Option<u64>) -> int
    decreases s.len(),
{
    if s.len() == 0 {
        -1
    } else {
        let rest = newest_session(s.drop_last(), before);
        let generation = s.last().binding.identity.generation.0;
        if (before matches Some(b) ==> generation < b) && (rest < 0 || generation
            > s[rest].binding.identity.generation.0) {
            s.len() - 1
        } else {
            rest
        }
    }
}

/// What a step of the deletion did.
#[derive(Debug, Clone, Copy, PartialEq, Eq, Structural)]
pub enum RetireStep {
    Work,
    Scope,
    Operation,
    Finished,
    /// The session is gone already.
    Absent,
}

/// What makes a session eligible.
pub struct Evidence {
    pub root: ScopeSummary,
    pub cutoff: Number,
}

/// How far a run of deletions has come.
pub struct RetireRun {
    pub tables: Tables,
    pub work: nat,
    pub scopes: nat,
    pub operations: nat,
    pub completed: bool,
    pub fault: Option<Fault>,
}

pub open spec fn max_time(a: Number, b: Number) -> Number {
    if a.0 <= b.0 {
        b
    } else {
        a
    }
}

/// The latest promise over the work of a session, or none where a resource is still held.
pub open spec fn work_cutoff(rows: Seq<WorkRow>, start: Number) -> Result<Option<Number>, Fault>
    decreases rows.len(),
{
    if rows.len() == 0 {
        Ok(Some(start))
    } else {
        match work_cutoff(rows.drop_last(), start) {
            Ok(Some(cutoff)) => row_cutoff(rows.last(), cutoff),
            other => other,
        }
    }
}

pub open spec fn row_cutoff(row: WorkRow, cutoff: Number) -> Result<Option<Number>, Fault> {
    let view = row.view;
    let receipt = max_time(cutoff, view.receipt_until->0);
    if !view.state.terminal() || view.receipt_until is None {
        Err(Fault::Corrupt)
    } else if row.job matches Some(job) && (job.executor_live || job.input_live
        || job.outputs_live) {
        Ok(None)
    } else {
        Ok(
            Some(
                match view.output_until {
                    Some(until) => max_time(receipt, until),
                    None => receipt,
                },
            ),
        )
    }
}

impl Tables {
    /// The summary that closed a scope, if it is closed.
    pub open spec fn closing(self, generation: Id, scope: Number) -> Result<
        Option<ScopeSummary>,
        Fault,
    > {
        let k = self.scope_at(generation, scope);
        if k >= self.scopes.len() {
            Err(Fault::Refused(ErrorCode::NotFound))
        } else {
            Ok(self.scopes[k].summary)
        }
    }

    /// Why retained evidence is not borne out by what the authority retains, if it is not.
    pub open spec fn proof_fault(self, proof: Proof) -> Option<Fault> {
        let i = self.session_at(proof.identity.generation);
        let binding = self.sessions[i].binding;
        let due = store::later(proof.root.closed_at, binding.policy.receipt_retention_ms);
        let closing = self.closing(proof.identity.generation, Number(0));
        if !proof.valid() {
            Some(Fault::Refused(ErrorCode::FrameError))
        } else if i >= self.sessions.len() {
            Some(Fault::Corrupt)
        } else if !proof.identity.names(binding.identity) || proof.creation
            != binding.creation_sequence || self.last_generation < proof.identity.generation.0
            || self.last_creation(binding.identity.owner.0@) < proof.creation.0 || proof.at.0
            > self.greatest {
            Some(Fault::Corrupt)
        } else if due is None {
            Some(Fault::Refused(ErrorCode::LimitExceeded))
        } else if proof.cutoff.0 < (due->0).0 {
            Some(Fault::Corrupt)
        } else if closing is Err {
            Some(closing->Err_0)
        } else if closing->Ok_0 != Some(proof.root) {
            Some(Fault::Corrupt)
        } else {
            None
        }
    }

    /// The retained evidence for the retirement of a session, if one was committed.
    pub open spec fn retirement_of(self, generation: Id) -> Result<Option<int>, Fault> {
        let i = self.session_at(generation);
        let r = self.retirement_at(generation);
        let proof = self.retirements[r].evidence;
        if i >= self.sessions.len() {
            Ok(None)
        } else if self.sessions[i].retiring != (r < self.retirements.len()) {
            Err(Fault::Corrupt)
        } else if !self.sessions[i].retiring {
            Ok(None)
        } else if proof.identity.generation != generation {
            Err(Fault::Corrupt)
        } else if self.proof_fault(proof) is Some {
            Err(self.proof_fault(proof)->0)
        } else {
            Ok(Some(r))
        }
    }

    /// What is wrong with the retirement of a session, if anything is: one that is marked, or that
    /// evidence is retained for, has evidence that is borne out.
    pub open spec fn retirement_check(self) -> spec_fn(SessionRow) -> Option<Fault> {
        |row: SessionRow|
            {
                let generation = row.binding.identity.generation;
                if row.retiring || self.retirement_at(generation) < self.retirements.len() {
                    match self.retirement_of(generation) {
                        Ok(Some(_)) => None,
                        Ok(None) => Some(Fault::Corrupt),
                        Err(fault) => Some(fault),
                    }
                } else {
                    None
                }
            }
    }

    /// Why the retirements do not add up, if they do not: evidence without a session, or the first
    /// session whose evidence is not borne out.
    pub open spec fn retirements_fault(self) -> Option<Fault> {
        if exists|r: int|
            0 <= r < self.retirements.len() && self.session_at(
                (#[trigger] self.retirements[r]).generation,
            ) >= self.sessions.len() {
            Some(Fault::Corrupt)
        } else {
            table::first_fault(self.sessions, self.retirement_check())
        }
    }

    pub open spec fn session_work(self, generation: Id) -> Seq<WorkRow> {
        table::rows_where(self.work, of_generation(generation))
    }

    /// Some scope of the session is not closed by the cutoff.
    pub open spec fn unclosed_scope(self, generation: Id, cutoff: Number) -> bool {
        exists|k: int|
            0 <= k < self.scopes.len() && (#[trigger] self.scopes[k]).generation == generation
                && !(self.scopes[k].summary matches Some(s) && s.closed_at.0 <= cutoff.0)
    }

    /// Whether a session may be retired: its root closed, every receipt and output promise ran out,
    /// and nothing is held for its work. `audit` is what the audit of all records came to.
    pub open spec fn eligible(self, generation: Id, now: Number, audit: Option<Fault>) -> Result<
        Option<Evidence>,
        Fault,
    > {
        let i = self.session_at(generation);
        let retention = self.sessions[i].binding.policy.receipt_retention_ms;
        let closing = self.closing(generation, Number(0));
        let root = closing->Ok_0->0;
        let due = store::later(root.closed_at, retention);
        let cutoff = work_cutoff(self.session_work(generation), due->0);
        if i >= self.sessions.len() {
            Err(Fault::Corrupt)
        } else if closing is Err {
            Err(closing->Err_0)
        } else if closing->Ok_0 is None {
            Ok(None)
        } else if due is None {
            Err(Fault::Refused(ErrorCode::LimitExceeded))
        } else if now.0 < (due->0).0 {
            Ok(None)
        } else if cutoff is Err {
            Err(cutoff->Err_0)
        } else if cutoff->Ok_0 is None || now.0 < (cutoff->Ok_0->0).0 {
            Ok(None)
        } else if audit is Some {
            Err(audit->0)
        } else if self.unclosed_scope(generation, cutoff->Ok_0->0) {
            Err(Fault::Corrupt)
        } else {
            Ok(Some(Evidence { root, cutoff: cutoff->Ok_0->0 }))
        }
    }

    /// The evidence written down for a session at the given time.
    pub open spec fn evidences(
        self,
        generation: Id,
        evidence: Evidence,
        now: Number,
        proof: Proof,
    ) -> bool {
        let binding = self.sessions[self.session_at(generation)].binding;
        &&& proof.identity.names(binding.identity)
        &&& proof.creation == binding.creation_sequence
        &&& proof.root == evidence.root
        &&& proof.cutoff == evidence.cutoff
        &&& proof.at == now
    }

    /// The tables once the intent to retire is committed.
    pub open spec fn with_intent(self, generation: Id, now: Number, proof: Proof) -> Tables {
        let i = self.session_at(generation);
        Tables {
            greatest: now.0,
            sessions: self.sessions.update(
                i,
                (SessionRow { retiring: true, ..self.sessions[i] }),
            ),
            retirements: self.retirements.push(RetirementRow { generation, evidence: proof }),
            ..self
        }
    }

    /// One step of the deletion: the latest work, else the last child scope, else the latest
    /// operation, else root, evidence and session together.
    #[verifier::opaque]
    pub open spec fn retire_step(
        self,
        generation: Id,
        clock: ClockReading,
        gone: Seq<PayloadStatus>,
    ) -> Result<(Tables, RetireStep), Fault> {
        let found = self.retirement_of(generation);
        let cutoff = self.retirements[found->Ok_0->0].evidence.cutoff;
        let work = table::latest(self.work, of_generation(generation), 1);
        let scope = last_child_scope(self.scopes, generation);
        let operation = table::latest(self.operations, operation_of(generation), 1);
        let root = self.scope_at(generation, Number(0));
        if !self.safe(clock) {
            Err(Fault::Refused(ErrorCode::ClockUnsafe))
        } else if found is Err {
            Err(found->Err_0)
        } else if found->Ok_0 is None {
            Ok((self, RetireStep::Absent))
        } else if work.len() > 0 {
            if !work_resolved(cutoff, self.work[work[0]].view) || !resources_released(
                self.work[work[0]],
                gone,
            ) {
                Err(Fault::Corrupt)
            } else {
                Ok((Tables { work: self.work.remove(work[0]), ..self }, RetireStep::Work))
            }
        } else if scope >= 0 {
            Ok((Tables { scopes: self.scopes.remove(scope), ..self }, RetireStep::Scope))
        } else if operation.len() > 0 {
            Ok(
                (
                    Tables { operations: self.operations.remove(operation[0]), ..self },
                    RetireStep::Operation,
                ),
            )
        } else {
            Ok(
                (
                    Tables {
                        retirements: self.retirements.remove(found->Ok_0->0),
                        scopes: if root < self.scopes.len() {
                            self.scopes.remove(root)
                        } else {
                            self.scopes
                        },
                        sessions: self.sessions.remove(self.session_at(generation)),
                        ..self
                    },
                    RetireStep::Finished,
                ),
            )
        }
    }

    /// A run of deletions, one for each reading of the clock.
    pub open spec fn retire_run(
        self,
        generation: Id,
        clocks: Seq<ClockReading>,
        gone: Seq<PayloadStatus>,
    ) -> RetireRun
        decreases clocks.len(),
    {
        if clocks.len() == 0 {
            RetireRun {
                tables: self,
                work: 0,
                scopes: 0,
                operations: 0,
                completed: false,
                fault: None,
            }
        } else {
            let run = self.retire_run(generation, clocks.drop_last(), gone);
            if run.completed || run.fault is Some {
                run
            } else {
                match run.tables.retire_step(generation, clocks.last(), gone) {
                    Err(fault) => RetireRun { fault: Some(fault), ..run },
                    Ok((tables, step)) => RetireRun {
                        tables,
                        work: if step == RetireStep::Work {
                            run.work + 1
                        } else {
                            run.work
                        },
                        scopes: if step == RetireStep::Scope {
                            run.scopes + 1
                        } else {
                            run.scopes
                        },
                        operations: if step == RetireStep::Operation {
                            run.operations + 1
                        } else {
                            run.operations
                        },
                        completed: step == RetireStep::Finished || step == RetireStep::Absent,
                        fault: None,
                    },
                }
            }
        }
    }

    /// What one call of retirement comes to.
    pub open spec fn retired(
        self,
        cursor: RetirementCursor,
        limit: nat,
        clock: ClockReading,
        steps: Seq<ClockReading>,
        gone: Seq<PayloadStatus>,
        audit: Option<Fault>,
        r: Result<RetirementProgress, StoreError>,
        after: Tables,
        next: RetirementCursor,
    ) -> bool {
        let bound = RetirementCursor { binding: Some(self.store_id), ..cursor };
        let s = newest_session(self.sessions, cursor.before);
        let generation = self.sessions[s].binding.identity.generation;
        let visited = RetirementCursor { before: Some(generation.0), ..bound };
        let found = self.retirement_of(generation);
        let eligible = self.eligible(generation, clock.utc_ms, audit);
        let proof = after.retirements.last().evidence;
        if limit < 1 || limit > 256 {
            retire_failed(r, Fault::Refused(ErrorCode::LimitExceeded)) && after == self && next
                == cursor
        } else if cursor.binding is Some && cursor.binding->0 != self.store_id {
            retire_failed(r, Fault::Refused(ErrorCode::Conflict)) && after == self && next == cursor
        } else if !self.safe(clock) {
            retire_failed(r, Fault::Refused(ErrorCode::ClockUnsafe)) && after == self && next
                == bound
        } else if s < 0 {
            &&& r == Ok::<RetirementProgress, StoreError>(no_retirement())
            &&& after == self
            &&& next == (RetirementCursor { before: None, ..bound })
        } else if found is Err {
            retire_failed(r, found->Err_0) && after == self && next == bound
        } else if found->Ok_0 is Some {
            let run = self.retire_run(generation, steps.take(limit as int), gone);
            &&& after == run.tables
            &&& match run.fault {
                Some(fault) => retire_failed(r, fault) && next == bound,
                None => {
                    &&& r matches Ok(p) && p.inspected_session == Some(generation) && !p.started
                        && p.deleted_work == run.work && p.deleted_scopes == run.scopes
                        && p.deleted_operations == run.operations && p.completed == run.completed
                    &&& next == visited
                },
            }
        } else if eligible is Err {
            retire_failed(r, eligible->Err_0) && after == self && next == bound
        } else if eligible->Ok_0 is None {
            &&& r == Ok::<RetirementProgress, StoreError>(
                RetirementProgress { inspected_session: Some(generation), ..no_retirement() },
            )
            &&& after == self
            &&& next == visited
        } else {
            ||| {
                &&& self.evidences(generation, eligible->Ok_0->0, clock.utc_ms, proof)
                &&& self.with_intent(generation, clock.utc_ms, proof).retirement_of(
                    generation,
                ) matches Ok(Some(_))
                &&& after == self.with_intent(generation, clock.utc_ms, proof)
                &&& r == Ok::<RetirementProgress, StoreError>(
                    RetirementProgress {
                        inspected_session: Some(generation),
                        started: true,
                        ..no_retirement()
                    },
                )
                &&& next == visited
            }
            ||| {
                &&& after == self
                &&& next == bound
                &&& r is Err
                &&& exists|unproved: Proof|
                    #[trigger] self.evidences(
                        generation,
                        eligible->Ok_0->0,
                        clock.utc_ms,
                        unproved,
                    ) && self.with_intent(generation, clock.utc_ms, unproved).retirement_of(
                        generation,
                    ) == Err::<Option<int>, Fault>(r->Err_0.fault())
            }
        }
    }
}

pub open spec fn retire_failed(r: Result<RetirementProgress, StoreError>, fault: Fault) -> bool {
    r is Err && r->Err_0.fault() == fault
}

pub open spec fn no_retirement() -> RetirementProgress {
    RetirementProgress {
        inspected_session: None,
        started: false,
        deleted_work: 0,
        deleted_scopes: 0,
        deleted_operations: 0,
        completed: false,
    }
}

#[derive(Debug, Clone, Copy, PartialEq, Eq)]
pub struct RetirementCursor {
    pub binding: Option<u64>,
    pub before: Option<u64>,
}

impl Default for RetirementCursor {
    fn default() -> (r: Self)
        ensures
            r == (RetirementCursor { binding: None, before: None }),
    {
        RetirementCursor { binding: None, before: None }
    }
}

#[derive(Debug, Clone, Copy, PartialEq, Eq)]
pub struct RetirementProgress {
    pub inspected_session: Option<Id>,
    pub started: bool,
    pub deleted_work: usize,
    pub deleted_scopes: usize,
    pub deleted_operations: usize,
    pub completed: bool,
}

/// Summaries with the same fields are the same.
pub proof fn lemma_summary_equal(a: ScopeSummary, b: ScopeSummary)
    requires
        a.agrees(&b),
    ensures
        a == b,
{
    labels::lemma_digest_of(a.seal);
    labels::lemma_digest_of(b.seal);
    labels::lemma_digest_of(a.status_root);
    labels::lemma_digest_of(b.status_root);
}

/// Taking a row out keeps the tables in order.
pub proof fn lemma_removal_keeps_order(t: Tables, i: int, k: int)
    requires
        t.well_formed(),
        0 <= i < t.work.len() ==> !t.active(t.work[i].generation),
        0 <= k < t.scopes.len() ==> forall|j: int|
            0 <= j < t.work.len() ==> (#[trigger] t.work[j]).generation != t.scopes[k].generation,
    ensures
        0 <= i < t.work.len() ==> (Tables { work: t.work.remove(i), ..t }).well_formed(),
        0 <= k < t.scopes.len() ==> (Tables { scopes: t.scopes.remove(k), ..t }).well_formed(),
{
    if 0 <= i < t.work.len() {
        let u = Tables { work: t.work.remove(i), ..t };
        accounts::lemma_work_leaves(t, u, i);
        assert forall|a: int| 0 <= a < u.work.len() implies #[trigger] u.work[a] == t.work[if a
            < i {
            a
        } else {
            a + 1
        }] by {}
        if u.work.len() > 0 {
            let last = if i == t.work.len() - 1 {
                i - 1
            } else {
                t.work.len() - 1
            };
            assert(u.work.last() == t.work[last]);
            if last < t.work.len() - 1 {
                assert(t.work[last].row < t.work[t.work.len() - 1].row);
            }
        }
    }
    if 0 <= k < t.scopes.len() {
        let u = Tables { scopes: t.scopes.remove(k), ..t };
        accounts::lemma_scope_leaves(t, u, k);
        assert forall|a: int| 0 <= a < u.scopes.len() implies #[trigger] u.scopes[a] == t.scopes[if a
            < k {
            a
        } else {
            a + 1
        }] by {}
        if u.scopes.len() > 0 {
            let last = if k == t.scopes.len() - 1 {
                k - 1
            } else {
                t.scopes.len() - 1
            };
            assert(u.scopes.last() == t.scopes[last]);
            if last < t.scopes.len() - 1 {
                assert(t.scopes[last].row < t.scopes[t.scopes.len() - 1].row);
            }
        }
    }
}

/// No step of a retirement lowers a high-water mark, and no step gives the evidence up before the
/// session is gone.
pub proof fn law_retirement_keeps_high_water_marks(
    t: Tables,
    generation: Id,
    clock: ClockReading,
    gone: Seq<PayloadStatus>,
)
    requires
        t.retire_step(generation, clock, gone) is Ok,
    ensures
        ({
            let (after, step) = t.retire_step(generation, clock, gone)->Ok_0;
            &&& after.last_generation == t.last_generation
            &&& after.owners == t.owners
            &&& after.greatest == t.greatest
            &&& step != RetireStep::Finished ==> after.retirements == t.retirements
                && after.sessions == t.sessions
        }),
{
    reveal(Tables::retire_step);
}

/// A run of deletions keeps the high-water marks as well.
pub proof fn law_retirement_run_keeps_high_water_marks(
    t: Tables,
    generation: Id,
    clocks: Seq<ClockReading>,
    gone: Seq<PayloadStatus>,
)
    ensures
        ({
            let run = t.retire_run(generation, clocks, gone);
            &&& run.tables.last_generation == t.last_generation
            &&& run.tables.owners == t.owners
            &&& run.tables.greatest == t.greatest
            &&& run.work + run.scopes + run.operations <= clocks.len()
        }),
    decreases clocks.len(),
{
    if clocks.len() > 0 {
        law_retirement_run_keeps_high_water_marks(t, generation, clocks.drop_last(), gone);
        reveal(Tables::retire_step);
    }
}

impl AuthorityStore {
    /// The summary that closed a scope, if it is closed.
    pub fn closed(&self, generation: Id, scope: Number) -> (r: Result<
        Option<ScopeSummary>,
        StoreError,
    >)
        ensures
            match r {
                Ok(s) => self@.closing(generation, scope) == Ok::<Option<ScopeSummary>, Fault>(s),
                Err(e) => self@.closing(generation, scope) == Err::<Option<ScopeSummary>, Fault>(
                    e.fault(),
                ),
            },
    {
        let k = self.load_scope(generation, scope)?;
        match &self.scopes[k].summary {
            Some(summary) => {
                let copy = summary.duplicate();
                proof {
                    lemma_summary_equal(copy, *summary);
                }
                Ok(Some(copy))
            },
            None => Ok(None),
        }
    }

    /// Holds evidence against what the authority retains.
    fn verify_proof(&self, proof: &Proof) -> (r: Result<(), StoreError>)
        ensures
            match r {
                Ok(_) => self@.proof_fault(*proof) is None,
                Err(e) => self@.proof_fault(*proof) == Some(e.fault()),
            },
    {
        match proof.check() {
            Ok(_) => {},
            Err(e) => {
                return Err(StoreError::Protocol(e));
            },
        }
        let generation = proof.identity.generation;
        let i = match self.find_session(generation) {
            Some(i) => i,
            None => {
                return Err(StoreError::Corrupt("retirement session absent"));
            },
        };
        let binding = &self.sessions[i].binding;
        let creation = match self.find_owner(&binding.identity.owner) {
            Some(o) => self.owners[o].last_creation,
            None => 0,
        };
        if !proof.identity.is_name_of(&binding.identity) || proof.creation
            != binding.creation_sequence || self.last_generation < generation.0 || creation
            < proof.creation.0 || proof.at.0 > self.greatest {
            return Err(StoreError::Corrupt("retirement proof differs from retained authority"));
        }
        let due = add_duration(proof.root.closed_at, binding.policy.receipt_retention_ms)?;
        if proof.cutoff.0 < due.0 {
            return Err(StoreError::Corrupt("retirement proof differs from retained authority"));
        }
        match self.closed(generation, Number(0))? {
            Some(root) => {
                if !root.same(&proof.root) {
                    proof {
                        if root == proof.root {
                            root.agrees_reflexive();
                        }
                    }
                    return Err(
                        StoreError::Corrupt("retirement proof differs from retained authority"),
                    );
                }
                proof {
                    lemma_summary_equal(root, proof.root);
                }
                Ok(())
            },
            None => Err(StoreError::Corrupt("retirement proof differs from retained authority")),
        }
    }

    /// The retained evidence for the retirement of a session, if one was committed.
    pub fn retirement(&self, generation: Id) -> (r: Result<Option<usize>, StoreError>)
        ensures
            match r {
                Ok(Some(i)) => self@.retirement_of(generation) == Ok::<Option<int>, Fault>(
                    Some(i as int),
                ) && i < self@.retirements.len(),
                Ok(None) => self@.retirement_of(generation) == Ok::<Option<int>, Fault>(None),
                Err(e) => self@.retirement_of(generation) == Err::<Option<int>, Fault>(e.fault()),
            },
    {
        let i = match self.find_session(generation) {
            Some(i) => i,
            None => {
                return Ok(None);
            },
        };
        let found = self.find_retirement(generation);
        if self.sessions[i].retiring != found.is_some() {
            return Err(StoreError::Corrupt("retirement flag and proof disagree"));
        }
        match found {
            None => Ok(None),
            Some(r) => {
                if self.retirements[r].evidence.identity.generation != generation {
                    return Err(StoreError::Corrupt("immutable retirement record changed"));
                }
                self.verify_proof(&self.retirements[r].evidence)?;
                Ok(Some(r))
            },
        }
    }

    /// Refuses access to a session whose retirement was committed.
    pub fn require_live(&self, generation: Id) -> (r: Result<(), StoreError>)
        ensures
            match self@.retirement_of(generation) {
                Ok(None) => r is Ok,
                Ok(Some(_)) => r matches Err(e) && e.fault() == Fault::Refused(ErrorCode::Expired),
                Err(fault) => r matches Err(e) && e.fault() == fault,
            },
    {
        match self.retirement(generation)? {
            Some(_) => Err(protocol(ErrorCode::Expired, "session retirement committed")),
            None => Ok(()),
        }
    }

    /// Every retirement belongs to a session and is borne out. The failure is that of the first session
    /// in the order of generations.
    pub fn verify_retirements(&self) -> (r: Result<(), StoreError>)
        ensures
            match r {
                Ok(_) => self@.retirements_fault() is None,
                Err(e) => self@.retirements_fault() == Some(e.fault()),
            },
    {
        let mut k: usize = 0;
        while k < self.retirements.len()
            invariant
                k <= self.retirements@.len(),
                forall|r: int|
                    0 <= r < k ==> self@.session_at((#[trigger] self@.retirements[r]).generation)
                        < self@.sessions.len(),
            decreases self.retirements@.len() - k,
        {
            if self.find_session(self.retirements[k].generation).is_none() {
                assert(self@.session_at(self@.retirements[k as int].generation)
                    >= self@.sessions.len());
                return Err(StoreError::Corrupt("retirement proof has no session"));
            }
            k += 1;
        }
        let ghost f = self@.retirement_check();
        let mut i: usize = 0;
        proof {
            table::lemma_first_fault_whole(self@.sessions, f);
        }
        while i < self.sessions.len()
            invariant
                i <= self.sessions@.len(),
                f == self@.retirement_check(),
                forall|r: int|
                    0 <= r < self@.retirements.len() ==> self@.session_at(
                        (#[trigger] self@.retirements[r]).generation,
                    ) < self@.sessions.len(),
                table::first_fault(self@.sessions.take(i as int), f) is None,
            decreases self.sessions@.len() - i,
        {
            proof {
                table::lemma_first_fault_step(self@.sessions, f, i as int);
            }
            let generation = self.sessions[i].binding.identity.generation;
            if self.sessions[i].retiring || self.find_retirement(generation).is_some() {
                match self.retirement(generation) {
                    Ok(Some(_)) => {},
                    Ok(None) => {
                        return Err(StoreError::Corrupt("retirement proof disappeared"));
                    },
                    Err(e) => {
                        return Err(e);
                    },
                }
            }
            i += 1;
        }
        proof {
            table::lemma_first_fault_whole(self@.sessions, f);
        }
        Ok(())
    }

    /// Whether a session may be retired, and the evidence for it.
    fn eligible_for(&self, generation: Id, now: Number, audit: &Option<StoreError>) -> (r: Result<
        Option<Proof>,
        StoreError,
    >)
        ensures
            ({
                let audited = match *audit {
                    Some(e) => Some(e.fault()),
                    None => None,
                };
                let expected = self@.eligible(generation, now, audited);
                match r {
                    Err(e) => expected == Err::<Option<Evidence>, Fault>(e.fault()),
                    Ok(None) => expected == Ok::<Option<Evidence>, Fault>(None),
                    Ok(Some(proof)) => expected matches Ok(Some(ev)) && self@.evidences(
                        generation,
                        ev,
                        now,
                        proof,
                    ),
                }
            }),
    {
        let i = match self.find_session(generation) {
            Some(i) => i,
            None => {
                return Err(StoreError::Corrupt("retirement candidate absent"));
            },
        };
        let root = match self.closed(generation, Number(0))? {
            Some(root) => root,
            None => {
                return Ok(None);
            },
        };
        let due = add_duration(
            root.closed_at,
            self.sessions[i].binding.policy.receipt_retention_ms,
        )?;
        if now.0 < due.0 {
            return Ok(None);
        }
        let cutoff = match self.cutoff_of(generation, due)? {
            Some(cutoff) => cutoff,
            None => {
                return Ok(None);
            },
        };
        if now.0 < cutoff.0 {
            return Ok(None);
        }
        // Audit before committing intentional partial deletion. Subsequently the
        // proof permits missing inter-record relationships, never live resources.
        match audit {
            Some(e) => {
                return Err(*e);
            },
            None => {},
        }
        if self.has_unclosed_scope(generation, cutoff) {
            return Err(StoreError::Corrupt("closed root contains unclosed scope"));
        }
        Ok(
            Some(
                Proof {
                    identity: Issuer::of(&self.sessions[i].binding.identity),
                    creation: self.sessions[i].binding.creation_sequence,
                    root,
                    cutoff,
                    at: now,
                },
            ),
        )
    }

    fn cutoff_of(&self, generation: Id, start: Number) -> (r: Result<Option<Number>, StoreError>)
        ensures
            match r {
                Ok(c) => work_cutoff(self@.session_work(generation), start) == Ok::<
                    Option<Number>,
                    Fault,
                >(c),
                Err(e) => work_cutoff(self@.session_work(generation), start) == Err::<
                    Option<Number>,
                    Fault,
                >(e.fault()),
            },
    {
        let ghost t = self@;
        let ghost p = of_generation(generation);
        let ghost all = t.session_work(generation);
        let mut cutoff = start;
        let mut i: usize = 0;
        assert(table::rows_where(t.work.take(0), p) =~= Seq::empty());
        while i < self.work.len()
            invariant
                i <= self.work@.len(),
                t == self@,
                p == of_generation(generation),
                all == t.session_work(generation),
                work_cutoff(table::rows_where(t.work.take(i as int), p), start) == Ok::<
                    Option<Number>,
                    Fault,
                >(Some(cutoff)),
            decreases self.work@.len() - i,
        {
            let ghost seen = table::rows_where(t.work.take(i as int), p);
            let ghost row = t.work[i as int];
            proof {
                assert(t.work.take(i + 1) =~= t.work.take(i as int).push(row));
                table::lemma_rows_where_push(t.work.take(i as int), p, row);
                table::lemma_rows_where_prefix(t.work, p, i + 1);
                assert(seen.push(row).drop_last() =~= seen);
            }
            if self.work[i].generation == generation {
                let ghost n = seen.push(row).len() as int;
                let view = &self.work[i].view;
                if !view.state.is_terminal() {
                    proof {
                        lemma_cutoff_stops(all, start, n);
                    }
                    return Err(StoreError::Corrupt("closed root contains unresolved work"));
                }
                let receipt = match view.receipt_until {
                    Some(receipt) => receipt,
                    None => {
                        proof {
                            lemma_cutoff_stops(all, start, n);
                        }
                        return Err(StoreError::Corrupt("terminal receipt deadline missing"));
                    },
                };
                let held = match &self.work[i].job {
                    Some(job) => job.executor_live || job.input_live || job.outputs_live,
                    None => false,
                };
                if held {
                    proof {
                        lemma_cutoff_stops(all, start, n);
                    }
                    return Ok(None);
                }
                if cutoff.0 <= receipt.0 {
                    cutoff = receipt;
                }
                match view.output_until {
                    Some(until) => {
                        if cutoff.0 <= until.0 {
                            cutoff = until;
                        }
                    },
                    None => {},
                }
            }
            i += 1;
        }
        assert(t.work.take(i as int) =~= t.work);
        Ok(Some(cutoff))
    }

    fn has_unclosed_scope(&self, generation: Id, cutoff: Number) -> (r: bool)
        ensures
            r == self@.unclosed_scope(generation, cutoff),
    {
        let mut k: usize = 0;
        while k < self.scopes.len()
            invariant
                k <= self.scopes@.len(),
                forall|j: int|
                    0 <= j < k ==> !((#[trigger] self@.scopes[j]).generation == generation && !(
                    self@.scopes[j].summary matches Some(s) && s.closed_at.0 <= cutoff.0)),
            decreases self.scopes@.len() - k,
        {
            if self.scopes[k].generation == generation {
                let closed = match &self.scopes[k].summary {
                    Some(s) => s.closed_at.0 <= cutoff.0,
                    None => false,
                };
                if !closed {
                    assert(self@.scopes[k as int].generation == generation);
                    return true;
                }
            }
            k += 1;
        }
        false
    }

    fn latest_work(&self, generation: Id) -> (r: Option<usize>)
        ensures
            ({
                let found = table::latest(self@.work, of_generation(generation), 1);
                match r {
                    Some(i) => found.len() > 0 && found[0] == i && i < self@.work.len(),
                    None => found.len() == 0,
                }
            }),
    {
        let ghost p = of_generation(generation);
        let mut i: usize = self.work.len();
        assert(self.work@.take(i as int) =~= self.work@);
        while i > 0
            invariant
                i <= self.work@.len(),
                p == of_generation(generation),
                table::latest(self.work@, p, 1) == table::latest(self.work@.take(i as int), p, 1),
            decreases i,
        {
            i -= 1;
            proof {
                assert(self.work@.take(i + 1).drop_last() =~= self.work@.take(i as int));
                assert(self.work@.take(i + 1).last() == self.work@[i as int]);
            }
            if self.work[i].generation == generation {
                assert(table::latest(self.work@.take(i + 1), p, 1)[0] == i);
                return Some(i);
            }
        }
        assert(table::latest(self.work@.take(0), p, 1).len() == 0);
        None
    }

    fn latest_operation(&self, generation: Id) -> (r: Option<usize>)
        ensures
            ({
                let found = table::latest(self@.operations, operation_of(generation), 1);
                match r {
                    Some(i) => found.len() > 0 && found[0] == i && i < self@.operations.len(),
                    None => found.len() == 0,
                }
            }),
    {
        let ghost p = operation_of(generation);
        let mut i: usize = self.operations.len();
        assert(self.operations@.take(i as int) =~= self.operations@);
        while i > 0
            invariant
                i <= self.operations@.len(),
                p == operation_of(generation),
                table::latest(self.operations@, p, 1) == table::latest(
                    self.operations@.take(i as int),
                    p,
                    1,
                ),
            decreases i,
        {
            i -= 1;
            proof {
                assert(self.operations@.take(i + 1).drop_last() =~= self.operations@.take(
                    i as int,
                ));
                assert(self.operations@.take(i + 1).last() == self.operations@[i as int]);
            }
            if self.operations[i].generation == generation {
                assert(table::latest(self.operations@.take(i + 1), p, 1)[0] == i);
                return Some(i);
            }
        }
        assert(table::latest(self.operations@.take(0), p, 1).len() == 0);
        None
    }

    fn find_last_child_scope(&self, generation: Id) -> (r: Option<usize>)
        ensures
            match r {
                Some(k) => last_child_scope(self@.scopes, generation) == k && k
                    < self@.scopes.len(),
                None => last_child_scope(self@.scopes, generation) < 0,
            },
    {
        let mut best: Option<usize> = None;
        let mut k: usize = 0;
        while k < self.scopes.len()
            invariant
                k <= self.scopes@.len(),
                match best {
                    Some(b) => last_child_scope(self.scopes@.take(k as int), generation) == b && b < k,
                    None => last_child_scope(self.scopes@.take(k as int), generation) < 0,
                },
            decreases self.scopes@.len() - k,
        {
            proof {
                assert(self.scopes@.take(k + 1).drop_last() =~= self.scopes@.take(k as int));
                assert(self.scopes@.take(k + 1).last() == self.scopes@[k as int]);
            }
            if self.scopes[k].generation == generation && self.scopes[k].scope.0 != 0 {
                let higher = match best {
                    Some(b) => self.scopes[k].scope.0 > self.scopes[b].scope.0,
                    None => true,
                };
                if higher {
                    best = Some(k);
                }
            }
            k += 1;
        }
        assert(self.scopes@.take(k as int) =~= self.scopes@);
        best
    }

    fn find_newest_session(&self, before: Option<u64>) -> (r: Option<usize>)
        ensures
            match r {
                Some(i) => newest_session(self@.sessions, before) == i && i < self@.sessions.len(),
                None => newest_session(self@.sessions, before) < 0,
            },
    {
        let mut best: Option<usize> = None;
        let mut i: usize = 0;
        while i < self.sessions.len()
            invariant
                i <= self.sessions@.len(),
                match best {
                    Some(b) => newest_session(self.sessions@.take(i as int), before) == b && b < i,
                    None => newest_session(self.sessions@.take(i as int), before) < 0,
                },
            decreases self.sessions@.len() - i,
        {
            proof {
                assert(self.sessions@.take(i + 1).drop_last() =~= self.sessions@.take(i as int));
                assert(self.sessions@.take(i + 1).last() == self.sessions@[i as int]);
            }
            let generation = self.sessions[i].binding.identity.generation.0;
            let in_range = match before {
                Some(b) => generation < b,
                None => true,
            };
            let newer = match best {
                Some(b) => generation > self.sessions[b].binding.identity.generation.0,
                None => true,
            };
            if in_range && newer {
                best = Some(i);
            }
            i += 1;
        }
        assert(self.sessions@.take(i as int) =~= self.sessions@);
        best
    }

    /// Deletes one bundle of a session whose retirement was committed.
    pub fn retire_next(
        &mut self,
        generation: Id,
        clock: ClockReading,
        gone: &Vec<PayloadStatus>,
    ) -> (r: Result<RetireStep, StoreError>)
        requires
            old(self)@.well_formed(),
        ensures
            final(self)@.well_formed(),
            match r {
                Ok(step) => old(self)@.retire_step(generation, clock, gone@) == Ok::<
                    (Tables, RetireStep),
                    Fault,
                >((final(self)@, step)),
                Err(e) => old(self)@.retire_step(generation, clock, gone@) == Err::<
                    (Tables, RetireStep),
                    Fault,
                >(e.fault()) && final(self)@ == old(self)@,
            },
    {
        reveal(Tables::retire_step);
        let ghost t = self@;
        self.check_clock(clock)?;
        let found = match self.retirement(generation)? {
            Some(found) => found,
            None => {
                return Ok(RetireStep::Absent);
            },
        };
        let cutoff = self.retirements[found].evidence.cutoff;
        match self.latest_work(generation) {
            Some(i) => {
                let view = &self.work[i].view;
                let by_then = |at: Option<Number>| -> (b: bool)
                    ensures
                        b == (at matches Some(n) && n.0 <= cutoff.0),
                {
                    match at {
                        Some(n) => n.0 <= cutoff.0,
                        None => false,
                    }
                };
                let resolved = view.state.is_terminal() && by_then(view.terminal_at) && by_then(
                    view.receipt_until,
                ) && (view.output_until.is_none() || by_then(view.output_until));
                if !resolved {
                    return Err(StoreError::Corrupt("retiring work has an unresolved promise"));
                }
                if view.admitted_at.is_some() {
                    let held = match &self.work[i].job {
                        Some(job) => job.executor_live || job.input_live || job.outputs_live,
                        None => true,
                    };
                    let (input_gone, outputs_gone) = find_status(gone, self.work[i].row);
                    if held || !input_gone || !outputs_gone {
                        return Err(StoreError::Corrupt("retiring job retains resources"));
                    }
                }
                self.work.remove(i);
                proof {
                    let p = of_generation(generation);
                    table::lemma_latest_len(t.work, p, 1);
                    lemma_removal_keeps_order(t, i as int, -1);
                    assert(self.work@ =~= t.work.remove(i as int));
                }
                return Ok(RetireStep::Work);
            },
            None => {
                proof {
                    table::lemma_latest_none(t.work, of_generation(generation), 1);
                    assert forall|j: int| 0 <= j < t.work.len() implies (
                    #[trigger] t.work[j]).generation != generation by {
                        let p = of_generation(generation);
                        assert(!p(t.work[j]));
                    }
                    lemma_last_child_scope(t.scopes, generation);
                }
            },
        }
        match self.find_last_child_scope(generation) {
            Some(k) => {
                self.scopes.remove(k);
                proof {
                    lemma_removal_keeps_order(t, -1, k as int);
                    assert(self.scopes@ =~= t.scopes.remove(k as int));
                }
                return Ok(RetireStep::Scope);
            },
            None => {},
        }
        match self.latest_operation(generation) {
            Some(o) => {
                self.operations.remove(o);
                proof {
                    assert(self.operations@ =~= t.operations.remove(o as int));
                    accounts::lemma_rows_stay(t, self@);
                }
                return Ok(RetireStep::Operation);
            },
            None => {},
        }
        let session = self.find_session(generation);
        let root = self.find_scope(generation, Number(0));
        let ghost before = match root {
            Some(k) => Tables { scopes: t.scopes.remove(k as int), ..t },
            None => t,
        };
        self.retirements.remove(found);
        match root {
            Some(k) => {
                self.scopes.remove(k);
                proof {
                    lemma_removal_keeps_order(t, -1, k as int);
                }
            },
            None => {},
        }
        match session {
            Some(i) => {
                proof {
                    accounts::lemma_rows_stay(before, self@);
                }
                let ghost fewer = self@;
                self.sessions.remove(i);
                proof {
                    accounts::lemma_session_leaves(fewer, self@, i as int);
                }
            },
            None => {
                proof {
                    accounts::lemma_rows_stay(before, self@);
                }
            },
        }
        proof {
            let after = t.retire_step(generation, clock, gone@)->Ok_0.0;
            assert(self.retirements@ =~= after.retirements);
            assert(self.scopes@ =~= after.scopes);
            assert(self.sessions@ =~= after.sessions);
        }
        Ok(RetireStep::Finished)
    }

    /// Inspect one session per call, in descending generation passes. A
    /// committed retirement refuses new access before deleting anything.
    /// Later calls delete at most `limit` work bundles, scopes or operations,
    /// each on its own. The final root/proof/session deletion is atomic. `clock` is
    /// the reading for the inspection and `steps` has one for each deletion.
    pub fn retire(
        &mut self,
        cursor: &mut RetirementCursor,
        limit: usize,
        clock: ClockReading,
        steps: &Vec<ClockReading>,
        gone: &Vec<PayloadStatus>,
        audit: &Option<StoreError>,
    ) -> (r: Result<RetirementProgress, StoreError>)
        requires
            old(self)@.well_formed(),
            limit <= 256 ==> steps@.len() >= limit,
        ensures
            final(self)@.well_formed(),
            old(self)@.retired(
                *old(cursor),
                limit as nat,
                clock,
                steps@,
                gone@,
                match *audit {
                    Some(e) => Some(e.fault()),
                    None => None,
                },
                r,
                final(self)@,
                *final(cursor),
            ),
    {
        if limit < 1 || limit > 256 {
            return Err(protocol(ErrorCode::LimitExceeded, "invalid retirement batch"));
        }
        match cursor.binding {
            Some(binding) => {
                if binding != self.store_id {
                    return Err(
                        protocol(
                            ErrorCode::Conflict,
                            "retirement cursor belongs to another authority",
                        ),
                    );
                }
            },
            None => {},
        }
        cursor.binding = Some(self.store_id);
        let now = self.check_clock(clock)?;
        let s = match self.find_newest_session(cursor.before) {
            Some(s) => s,
            None => {
                cursor.before = None;
                return Ok(RetirementProgress::none());
            },
        };
        let generation = self.sessions[s].binding.identity.generation;
        let mut report = RetirementProgress::none();
        report.inspected_session = Some(generation);
        if self.retirement(generation)?.is_none() {
            match self.eligible_for(generation, now, audit)? {
                Some(evidence) => {
                    self.commit_intent(generation, now, evidence)?;
                    report.started = true;
                },
                None => {},
            }
            cursor.before = Some(generation.0);
            return Ok(report);
        }
        self.delete_batch(generation, limit, steps, gone, &mut report)?;
        cursor.before = Some(generation.0);
        Ok(report)
    }

    /// Deletes at most `limit` bundles. What was deleted before a failure stays deleted.
    fn delete_batch(
        &mut self,
        generation: Id,
        limit: usize,
        steps: &Vec<ClockReading>,
        gone: &Vec<PayloadStatus>,
        report: &mut RetirementProgress,
    ) -> (r: Result<(), StoreError>)
        requires
            old(self)@.well_formed(),
            limit <= 256,
            limit <= steps@.len(),
            !old(report).completed,
            old(report).deleted_work == 0,
            old(report).deleted_scopes == 0,
            old(report).deleted_operations == 0,
        ensures
            final(self)@.well_formed(),
            ({
                let run = old(self)@.retire_run(generation, steps@.take(limit as int), gone@);
                &&& final(self)@ == run.tables
                &&& match r {
                    Err(e) => run.fault == Some(e.fault()),
                    Ok(_) => run.fault is None && *final(report) == (RetirementProgress {
                        deleted_work: run.work as usize,
                        deleted_scopes: run.scopes as usize,
                        deleted_operations: run.operations as usize,
                        completed: run.completed,
                        ..*old(report)
                    }) && run.work <= 256 && run.scopes <= 256 && run.operations <= 256,
                }
            }),
    {
        let ghost t = self@;
        let ghost first = *report;
        let mut n: usize = 0;
        assert(steps@.take(0) =~= Seq::empty());
        while n < limit && !report.completed
            invariant
                self@.well_formed(),
                t == old(self)@,
                n <= limit <= 256,
                limit <= steps@.len(),
                report.deleted_work <= n,
                report.deleted_scopes <= n,
                report.deleted_operations <= n,
                ({
                    let run = t.retire_run(generation, steps@.take(n as int), gone@);
                    &&& run.tables == self@
                    &&& run.fault is None
                    &&& run.completed == report.completed
                    &&& run.work == report.deleted_work
                    &&& run.scopes == report.deleted_scopes
                    &&& run.operations == report.deleted_operations
                }),
                report.inspected_session == first.inspected_session,
                report.started == first.started,
                first == *old(report),
            decreases limit - n,
        {
            proof {
                assert(steps@.take(n + 1).drop_last() =~= steps@.take(n as int));
                assert(steps@.take(n + 1).last() == steps@[n as int]);
            }
            match self.retire_next(generation, steps[n], gone) {
                Ok(step) => {
                    match step {
                        RetireStep::Work => {
                            report.deleted_work += 1;
                        },
                        RetireStep::Scope => {
                            report.deleted_scopes += 1;
                        },
                        RetireStep::Operation => {
                            report.deleted_operations += 1;
                        },
                        RetireStep::Finished | RetireStep::Absent => {
                            report.completed = true;
                        },
                    }
                },
                Err(e) => {
                    proof {
                        assert(steps@.take(limit as int).take(n + 1) =~= steps@.take(n + 1));
                        lemma_run_stops(t, generation, steps@.take(limit as int), gone@, n + 1);
                    }
                    return Err(e);
                },
            }
            n += 1;
        }
        proof {
            assert(steps@.take(limit as int).take(n as int) =~= steps@.take(n as int));
            if n < limit {
                lemma_run_stops(t, generation, steps@.take(limit as int), gone@, n as int);
            }
        }
        Ok(())
    }

    /// Commits the intent to retire a session, where the evidence for it is borne out afterwards.
    fn commit_intent(&mut self, generation: Id, now: Number, evidence: Proof) -> (r: Result<
        (),
        StoreError,
    >)
        requires
            old(self)@.well_formed(),
            now.0 >= old(self)@.greatest,
            old(self)@.session_at(generation) < old(self)@.sessions.len(),
            !old(self)@.sessions[old(self)@.session_at(generation)].retiring,
        ensures
            final(self)@.well_formed(),
            ({
                let intended = old(self)@.with_intent(generation, now, evidence);
                match r {
                    Ok(_) => final(self)@ == intended && intended.retirement_of(
                        generation,
                    ) matches Ok(Some(_)),
                    Err(e) => final(self)@ == old(self)@ && intended.retirement_of(generation)
                        == Err::<Option<int>, Fault>(e.fault()),
                }
            }),
    {
        let ghost t = self@;
        let greatest = self.greatest;
        let i = match self.find_session(generation) {
            Some(i) => i,
            None => {
                return Err(StoreError::Corrupt("retirement candidate absent"));
            },
        };
        let ghost intended = t.with_intent(generation, now, evidence);
        self.greatest = now.0;
        self.sessions[i].retiring = true;
        self.retirements.push(RetirementRow { generation, evidence });
        proof {
            assert(self.sessions@ =~= intended.sessions);
            assert(self.retirements@ =~= intended.retirements);
            table::lemma_index_where(t.sessions, store::is_session(generation));
            table::lemma_index_unique(
                intended.sessions,
                store::is_session(generation),
                i as int,
            );
            table::lemma_index_where(intended.retirements, store::is_retirement(generation));
            let p = store::is_retirement(generation);
            assert(p(intended.retirements.last()));
            accounts::lemma_rows_stay(t, intended);
        }
        let verdict = match self.retirement(generation) {
            Ok(Some(_)) => {
                return Ok(());
            },
            Ok(None) => StoreError::Corrupt("retirement intent disappeared"),
            Err(e) => e,
        };
        self.retirements.pop();
        self.sessions[i].retiring = false;
        self.greatest = greatest;
        proof {
            assert(self.retirements@ =~= t.retirements);
            assert(self.sessions@ =~= t.sessions);
        }
        Err(verdict)
    }
}

impl RetirementProgress {
    pub fn none() -> (r: Self)
        ensures
            r == no_retirement(),
    {
        RetirementProgress {
            inspected_session: None,
            started: false,
            deleted_work: 0,
            deleted_scopes: 0,
            deleted_operations: 0,
            completed: false,
        }
    }
}

/// A cutoff that cannot be told stays so, whatever work follows.
proof fn lemma_cutoff_stops(rows: Seq<WorkRow>, start: Number, n: int)
    requires
        0 <= n <= rows.len(),
        !(work_cutoff(rows.take(n), start) matches Ok(Some(_))),
    ensures
        work_cutoff(rows, start) == work_cutoff(rows.take(n), start),
    decreases rows.len() - n,
{
    if n < rows.len() {
        assert(rows.take(n + 1).drop_last() =~= rows.take(n));
        lemma_cutoff_stops(rows, start, n + 1);
    } else {
        assert(rows.take(n) =~= rows);
    }
}

/// A run that has ended stays as it is.
proof fn lemma_run_stops(
    t: Tables,
    generation: Id,
    clocks: Seq<ClockReading>,
    gone: Seq<PayloadStatus>,
    n: int,
)
    requires
        0 <= n <= clocks.len(),
        ({
            let run = t.retire_run(generation, clocks.take(n), gone);
            run.completed || run.fault is Some
        }),
    ensures
        t.retire_run(generation, clocks, gone) == t.retire_run(generation, clocks.take(n), gone),
    decreases clocks.len() - n,
{
    if n < clocks.len() {
        assert(clocks.take(n + 1).drop_last() =~= clocks.take(n));
        lemma_run_stops(t, generation, clocks, gone, n + 1);
    } else {
        assert(clocks.take(n) =~= clocks);
    }
}

} // verus!
