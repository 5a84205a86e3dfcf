//! Three-phase resource reclamation: committed intent, reference/pin-safe file
//! deletion, then logical quota release. Crashes can leave conservative charges,
//! never free capacity while promised bytes or live handles still exist.

use super::super::error::ErrorCode;
use super::super::numbers::{Id, Number};
use super::super::records::WorkView;
use super::accounts;
use super::retirement::{self, find_status, PayloadStatus};
use super::settlement;
use super::store::{
    self, protocol, AuthorityStore, ClockReading, Fault, Job, Release, StoreError, Tables, WorkRow,
};
use super::table;
use vstd::prelude::*;

verus! {

/// What a step of the job pass did.
#[derive(Debug, Clone, Copy, PartialEq, Eq, Structural)]
pub struct Reclaimed {
    pub row: u64,
    pub intent: bool,
    pub input: bool,
    pub outputs: bool,
}

/// How far the job pass has come.
pub struct ReclaimRun {
    pub tables: Tables,
    pub before: Option<u64>,
    pub inspected: nat,
    pub intents: nat,
    pub inputs: nat,
    pub outputs: nat,
    pub done: bool,
    pub fault: Option<Fault>,
}

pub open spec fn one_if(b: bool) -> nat {
    if b {
        1
    } else {
        0
    }
}

impl Tables {
    pub open spec fn reclaimable(self, before: Option<u64>) -> spec_fn(WorkRow) -> bool {
        |r: WorkRow|
            r.job is Some && (before matches Some(b) ==> r.row < b) && self.session_at(r.generation)
                < self.sessions.len()
    }

    /// Whether every scope that the work opened was closed by the given time.
    pub open spec fn children_closed(self, generation: Id, view: WorkView, at: Number) -> Result<
        bool,
        Fault,
    > {
        match view.child {
            None => Ok(true),
            Some(child) => match self.closing(generation, Number(child.scope.0)) {
                Err(fault) => Err(fault),
                Ok(summary) => Ok(summary matches Some(s) && s.closed_at.0 <= at.0),
            },
        }
    }

    /// Whether the work that opened the scope had ended by the given time.
    pub open spec fn parent_settled(self, generation: Id, view: WorkView, at: Number) -> Result<
        bool,
        Fault,
    > {
        let k = self.scope_at(generation, view.work.scope);
        if k >= self.scopes.len() {
            Err(Fault::Refused(ErrorCode::NotFound))
        } else {
            match self.scopes[k].parent {
                None => Ok(true),
                Some(parent) => match self.work_of(generation, parent) {
                    Err(fault) => Err(fault),
                    Ok(j) => Ok(
                        self.work[j].view.state.terminal() && (
                        self.work[j].view.terminal_at matches Some(time) && time.0 <= at.0),
                    ),
                },
            }
        }
    }

    /// Why a committed intent to release violates a promise, if it does: work ended before it, its
    /// child scopes closed before it, and outputs are given back only once the parent has ended and the
    /// promise to keep them ran out.
    pub open spec fn release_fault(self, generation: Id, view: WorkView, release: Release) -> Option<
        Fault,
    > {
        let children = self.children_closed(generation, view, release.at);
        let parent = self.parent_settled(generation, view, release.at);
        if !view.state.terminal() || !(view.terminal_at matches Some(at) && at.0 <= release.at.0)
            || release.at.0 > self.greatest {
            Some(Fault::Corrupt)
        } else if children is Err {
            Some(children->Err_0)
        } else if !children->Ok_0 {
            Some(Fault::Corrupt)
        } else if !release.outputs {
            None
        } else if parent is Err {
            Some(parent->Err_0)
        } else if !parent->Ok_0 || (view.output_until matches Some(until) && release.at.0 < until.0) {
            Some(Fault::Corrupt)
        } else {
            None
        }
    }

    /// Whether the outputs of work that has ended are due to be given back.
    pub open spec fn outputs_due(self, generation: Id, view: WorkView, now: Number) -> Result<
        bool,
        Fault,
    > {
        if view.output_until matches Some(until) && now.0 < until.0 {
            Ok(false)
        } else {
            self.parent_settled(generation, view, now)
        }
    }

    pub open spec fn with_job(self, j: int, job: Job, now: Number) -> Tables {
        Tables {
            greatest: now.0,
            work: self.work.update(j, WorkRow { job: Some(job), ..self.work[j] }),
            ..self
        }
    }

    /// What is done about one job: an intent is committed, or what the payload store no longer holds
    /// is released, or nothing.
    pub open spec fn reclaim_job(self, j: int, now: Number, gone: Seq<PayloadStatus>) -> Result<
        (Tables, Reclaimed),
        Fault,
    > {
        let row = self.work[j];
        let view = row.view;
        let generation = row.generation;
        let job = row.job->0;
        let idle = Reclaimed { row: row.row, intent: false, input: false, outputs: false };
        let retained = self.release_fault(generation, view, job.release->0);
        let children = self.children_closed(generation, view, now);
        let previous = match job.release {
            Some(release) => release,
            None => Release { input: false, outputs: false, at: now },
        };
        let due = self.outputs_due(generation, view, now);
        let release = Release { input: true, outputs: previous.outputs || due->Ok_0, at: now };
        let intended = self.with_job(j, Job { release: Some(release), ..job }, now);
        let status = retirement::payload_gone(gone, row.row);
        let input = job.input_live && previous.input && status.0;
        let outputs = job.outputs_live && previous.outputs && status.1;
        let released = Job {
            input_live: job.input_live && !input,
            outputs_live: job.outputs_live && !outputs,
            ..job
        };
        if job.release is Some && retained is Some {
            Err(retained->0)
        } else if !view.state.terminal() {
            Ok((self, idle))
        } else if children is Err {
            Err(children->Err_0)
        } else if !children->Ok_0 {
            Ok((self, idle))
        } else if due is Err {
            Err(due->Err_0)
        } else if !previous.input || (!previous.outputs && due->Ok_0) {
            match intended.release_fault(generation, view, release) {
                Some(fault) => Err(fault),
                None => Ok((intended, Reclaimed { intent: true, ..idle })),
            }
        } else if self.release_fault(generation, view, previous) is Some {
            Err(self.release_fault(generation, view, previous)->0)
        } else if input || outputs {
            Ok((self.with_job(j, released, now), Reclaimed { input, outputs, ..idle }))
        } else {
            Ok((self, idle))
        }
    }

    /// One step of the job pass: the next job, the latest first, or none where none is left.
    #[verifier::opaque]
    pub open spec fn reclaim_step(
        self,
        before: Option<u64>,
        clock: ClockReading,
        gone: Seq<PayloadStatus>,
    ) -> Result<(Tables, Option<Reclaimed>), Fault> {
        let rows = table::latest(self.work, self.reclaimable(before), 1);
        if !self.safe(clock) {
            Err(Fault::Refused(ErrorCode::ClockUnsafe))
        } else if rows.len() == 0 {
            Ok((self, None))
        } else {
            match self.reclaim_job(rows[0], clock.utc_ms, gone) {
                Err(fault) => Err(fault),
                Ok((after, step)) => Ok((after, Some(step))),
            }
        }
    }

    /// The job pass, one step for each reading of the clock.
    pub open spec fn reclaim_run(
        self,
        before: Option<u64>,
        clocks: Seq<ClockReading>,
        gone: Seq<PayloadStatus>,
    ) -> ReclaimRun
        decreases clocks.len(),
    {
        if clocks.len() == 0 {
            ReclaimRun {
                tables: self,
                before,
                inspected: 0,
                intents: 0,
                inputs: 0,
                outputs: 0,
                done: false,
                fault: None,
            }
        } else {
            let run = self.reclaim_run(before, clocks.drop_last(), gone);
            if run.done || run.fault is Some {
                run
            } else {
                match run.tables.reclaim_step(run.before, clocks.last(), gone) {
                    Err(fault) => ReclaimRun { fault: Some(fault), ..run },
                    Ok((tables, None)) => ReclaimRun { before: None, done: true, ..run },
                    Ok((tables, Some(step))) => ReclaimRun {
                        tables,
                        before: Some(step.row),
                        inspected: run.inspected + 1,
                        intents: run.intents + one_if(step.intent),
                        inputs: run.inputs + one_if(step.input),
                        outputs: run.outputs + one_if(step.outputs),
                        done: false,
                        fault: None,
                    },
                }
            }
        }
    }
}

impl Tables {
    /// What one call of the job pass comes to.
    pub open spec fn reclaimed(
        self,
        cursor: RetentionCursor,
        limit: nat,
        clocks: Seq<ClockReading>,
        gone: Seq<PayloadStatus>,
        r: Result<RetentionProgress, StoreError>,
        after: Tables,
        next: RetentionCursor,
    ) -> bool {
        let run = self.reclaim_run(cursor.before, clocks.take(limit as int), gone);
        if limit < 1 || limit > 256 {
            r is Err && r->Err_0.fault() == Fault::Refused(ErrorCode::LimitExceeded) && after == self
                && next == cursor
        } else if cursor.binding is Some && cursor.binding->0 != self.store_id {
            r is Err && r->Err_0.fault() == Fault::Refused(ErrorCode::Conflict) && after == self
                && next == cursor
        } else {
            &&& after == run.tables
            &&& next == (RetentionCursor {
                binding: Some(self.store_id),
                before: run.before,
                ..cursor
            })
            &&& match r {
                Err(e) => run.fault == Some(e.fault()),
                Ok(p) => {
                    &&& run.fault is None
                    &&& p.inspected_jobs == run.inspected
                    &&& p.committed_intents == run.intents
                    &&& p.released_inputs == run.inputs
                    &&& p.released_outputs == run.outputs
                    &&& p.inspected_files == 0
                    &&& p.removed_files == 0
                },
            }
        }
    }
}

/// Where the job pass and the file pass go on.
#[derive(Debug, Clone, PartialEq, Eq)]
pub struct RetentionCursor {
    pub binding: Option<u64>,
    pub before: Option<u64>,
    pub payload_after: Option<String>,
    pub payload_through: Option<String>,
}

impl Default for RetentionCursor {
    fn default() -> (r: Self)
        ensures
            r == (RetentionCursor {
                binding: None,
                before: None,
                payload_after: None,
                payload_through: None,
            }),
    {
        RetentionCursor { binding: None, before: None, payload_after: None, payload_through: None }
    }
}

impl RetentionCursor {
    /// The cursor with the upper bound of its pass over the files fixed.
    pub open spec fn with_files(self, last_key: Option<String>) -> RetentionCursor {
        RetentionCursor {
            payload_through: if self.payload_through is None {
                last_key
            } else {
                self.payload_through
            },
            ..self
        }
    }

    /// The cursor behind a batch of files.
    pub open spec fn behind_files(self, inspected: usize, limit: usize, next: Option<String>) -> RetentionCursor {
        if inspected < limit {
            RetentionCursor { payload_after: None, payload_through: None, ..self }
        } else {
            RetentionCursor { payload_after: next, ..self }
        }
    }

    /// Fixes the upper bound of a pass over the files before its first batch.
    pub fn open_files(&mut self, last_key: Option<String>)
        ensures
            *final(self) == old(self).with_files(last_key),
    {
        if self.payload_through.is_none() {
            self.payload_through = last_key;
        }
    }

    /// A batch of files was looked at: a batch that was not full ends the pass.
    pub fn files_inspected(&mut self, inspected: usize, limit: usize, next: Option<String>)
        ensures
            *final(self) == old(self).behind_files(inspected, limit, next),
    {
        if inspected < limit {
            self.payload_after = None;
            self.payload_through = None;
        } else {
            self.payload_after = next;
        }
    }
}

#[derive(Debug, Clone, Copy, PartialEq, Eq)]
pub struct RetentionProgress {
    pub inspected_jobs: usize,
    pub committed_intents: usize,
    pub released_inputs: usize,
    pub released_outputs: usize,
    pub inspected_files: usize,
    pub removed_files: usize,
}

/// A resource is given back only after the intent to do so was committed, and only once the payload
/// store no longer holds it.
pub proof fn law_release_follows_intent(t: Tables, j: int, now: Number, gone: Seq<PayloadStatus>)
    requires
        t.reclaim_job(j, now, gone) is Ok,
        0 <= j < t.work.len(),
        t.work[j].job is Some,
    ensures
        ({
            let (after, step) = t.reclaim_job(j, now, gone)->Ok_0;
            let before = t.work[j].job->0;
            let status = retirement::payload_gone(gone, t.work[j].row);
            &&& step.input ==> status.0 && (before.release matches Some(r) && r.input)
            &&& step.outputs ==> status.1 && (before.release matches Some(r) && r.outputs)
            &&& after.work[j].job matches Some(job) && (before.input_live && !job.input_live
                ==> step.input) && (before.outputs_live && !job.outputs_live ==> step.outputs)
            &&& after.work[j].view == t.work[j].view
            &&& forall|k: int| 0 <= k < t.work.len() && k != j ==> #[trigger] after.work[k] == t.work[k]
        }),
{
}

/// Outputs under a promise are never part of a new intent.
pub proof fn law_promised_outputs_are_kept(t: Tables, j: int, now: Number, gone: Seq<PayloadStatus>)
    requires
        t.reclaim_job(j, now, gone) is Ok,
        0 <= j < t.work.len(),
        t.work[j].job is Some,
        t.work[j].view.output_until matches Some(until) && now.0 < until.0,
        !(t.work[j].job->0.release matches Some(r) && r.outputs),
    ensures
        ({
            let (after, step) = t.reclaim_job(j, now, gone)->Ok_0;
            &&& !step.outputs
            &&& after.work[j].job matches Some(job) && job.outputs_live
                == t.work[j].job->0.outputs_live && !(job.release matches Some(r) && r.outputs)
        }),
{
}

/// A committed intent to release stays borne out, whatever else is reclaimed.
pub proof fn law_release_stays_borne_out(
    t: Tables,
    j: int,
    now: Number,
    gone: Seq<PayloadStatus>,
    generation: Id,
    view: WorkView,
    release: Release,
)
    requires
        t.reclaim_job(j, now, gone) is Ok,
        0 <= j < t.work.len(),
        t.greatest <= now.0,
        t.release_fault(generation, view, release) is None,
    ensures
        t.reclaim_job(j, now, gone)->Ok_0.0.release_fault(generation, view, release) is None,
{
    let after = t.reclaim_job(j, now, gone)->Ok_0.0;
    assert forall|k: int| 0 <= k < t.work.len() implies (#[trigger] t.work[k]).view
        == after.work[k].view && t.work[k].generation == after.work[k].generation by {}
    let s = t.scope_at(generation, view.work.scope);
    if s < t.scopes.len() && t.scopes[s].parent is Some {
        let parent = t.scopes[s].parent->0;
        let p = store::is_work(generation, parent.scope, parent.entity);
        table::lemma_index_alike(t.work, p, after.work);
        table::lemma_index_where(t.work, p);
    }
}

impl AuthorityStore {
    fn are_children_closed(&self, generation: Id, view: &WorkView, at: Number) -> (r: Result<
        bool,
        StoreError,
    >)
        ensures
            match r {
                Ok(b) => self@.children_closed(generation, *view, at) == Ok::<bool, Fault>(b),
                Err(e) => self@.children_closed(generation, *view, at) == Err::<bool, Fault>(
                    e.fault(),
                ),
            },
    {
        match &view.child {
            None => Ok(true),
            Some(child) => match self.closed(generation, Number(child.scope.0))? {
                Some(summary) => Ok(summary.closed_at.0 <= at.0),
                None => Ok(false),
            },
        }
    }

    fn is_parent_settled(&self, generation: Id, view: &WorkView, at: Number) -> (r: Result<
        bool,
        StoreError,
    >)
        ensures
            match r {
                Ok(b) => self@.parent_settled(generation, *view, at) == Ok::<bool, Fault>(b),
                Err(e) => self@.parent_settled(generation, *view, at) == Err::<bool, Fault>(
                    e.fault(),
                ),
            },
    {
        let k = self.load_scope(generation, view.work.scope)?;
        match self.scopes[k].parent {
            None => Ok(true),
            Some(parent) => {
                let j = self.find_work(generation, &parent)?;
                let parent = &self.work[j].view;
                let ended = match parent.terminal_at {
                    Some(time) => time.0 <= at.0,
                    None => false,
                };
                Ok(parent.state.is_terminal() && ended)
            },
        }
    }

    /// Holds a committed intent to release against the promises that it must keep.
    pub fn verify_release(&self, generation: Id, view: &WorkView, release: &Release) -> (r: Result<
        (),
        StoreError,
    >)
        ensures
            match r {
                Ok(_) => self@.release_fault(generation, *view, *release) is None,
                Err(e) => self@.release_fault(generation, *view, *release) == Some(e.fault()),
            },
    {
        let corrupt = StoreError::Corrupt("resource release violates retained promise");
        let ended = match view.terminal_at {
            Some(at) => at.0 <= release.at.0,
            None => false,
        };
        if !view.state.is_terminal() || !ended || release.at.0 > self.greatest {
            return Err(corrupt);
        }
        if !self.are_children_closed(generation, view, release.at)? {
            return Err(corrupt);
        }
        if release.outputs {
            let promised = match view.output_until {
                Some(until) => release.at.0 < until.0,
                None => false,
            };
            if !self.is_parent_settled(generation, view, release.at)? || promised {
                return Err(corrupt);
            }
        }
        Ok(())
    }

    fn are_outputs_due(&self, generation: Id, view: &WorkView, now: Number) -> (r: Result<
        bool,
        StoreError,
    >)
        ensures
            match r {
                Ok(b) => self@.outputs_due(generation, *view, now) == Ok::<bool, Fault>(b),
                Err(e) => self@.outputs_due(generation, *view, now) == Err::<bool, Fault>(
                    e.fault(),
                ),
            },
    {
        match view.output_until {
            Some(until) => {
                if now.0 < until.0 {
                    return Ok(false);
                }
            },
            None => {},
        }
        self.is_parent_settled(generation, view, now)
    }

    /// Looks at one job. On a failure nothing is changed.
    fn reclaim_at(&mut self, j: usize, now: Number, gone: &Vec<PayloadStatus>) -> (r: Result<
        Reclaimed,
        StoreError,
    >)
        requires
            old(self)@.well_formed(),
            j < old(self)@.work.len(),
            old(self)@.work[j as int].job is Some,
            now.0 >= old(self)@.greatest,
        ensures
            final(self)@.well_formed(),
            match r {
                Ok(step) => old(self)@.reclaim_job(j as int, now, gone@) == Ok::<
                    (Tables, Reclaimed),
                    Fault,
                >((final(self)@, step)),
                Err(e) => old(self)@.reclaim_job(j as int, now, gone@) == Err::<
                    (Tables, Reclaimed),
                    Fault,
                >(e.fault()) && final(self)@ == old(self)@,
            },
    {
        let ghost t = self@;
        let row = self.work[j].row;
        let generation = self.work[j].generation;
        let idle = Reclaimed { row, intent: false, input: false, outputs: false };
        let job = match self.work[j].job {
            Some(job) => job,
            None => {
                return Ok(idle);
            },
        };
        match &job.release {
            Some(release) => {
                self.verify_release(generation, &self.work[j].view, release)?;
            },
            None => {},
        }
        if !self.work[j].view.state.is_terminal() || !self.are_children_closed(
            generation,
            &self.work[j].view,
            now,
        )? {
            return Ok(idle);
        }
        let previous = match job.release {
            Some(release) => release,
            None => Release { input: false, outputs: false, at: now },
        };
        let due = self.are_outputs_due(generation, &self.work[j].view, now)?;
        if !previous.input || (!previous.outputs && due) {
            let release = Release { input: true, outputs: previous.outputs || due, at: now };
            let greatest = self.greatest;
            self.greatest = now.0;
            self.work[j].job = Some(
                Job {
                    stage: job.stage,
                    lease_until: job.lease_until,
                    executor_live: job.executor_live,
                    input_live: job.input_live,
                    outputs_live: job.outputs_live,
                    release: Some(release),
                },
            );
            let ghost intended = t.with_job(
                j as int,
                Job { release: Some(release), ..job },
                now,
            );
            assert(self@ == intended) by {
                assert(self.work@ =~= intended.work);
            }
            match self.verify_release(generation, &self.work[j].view, &release) {
                Ok(_) => {},
                Err(e) => {
                    self.greatest = greatest;
                    self.work[j].job = Some(job);
                    assert(self.work@ =~= t.work);
                    return Err(e);
                },
            }
            proof {
                accounts::lemma_profiled(t, j as int);
                settlement::lemma_fence_keeps_order(t, self@);
            }
            return Ok(Reclaimed { row, intent: true, input: false, outputs: false });
        }
        self.verify_release(generation, &self.work[j].view, &previous)?;
        let (input_gone, outputs_gone) = find_status(gone, row);
        let input = job.input_live && previous.input && input_gone;
        let outputs = job.outputs_live && previous.outputs && outputs_gone;
        if input || outputs {
            let released = Job {
                stage: job.stage,
                lease_until: job.lease_until,
                executor_live: job.executor_live,
                input_live: job.input_live && !input,
                outputs_live: job.outputs_live && !outputs,
                release: job.release,
            };
            self.work[j].job = Some(released);
            self.greatest = now.0;
            proof {
                assert(self.work@ =~= t.with_job(j as int, released, now).work);
                accounts::lemma_profiled(t, j as int);
                settlement::lemma_fence_keeps_order(t, self@);
            }
            return Ok(Reclaimed { row, intent: false, input, outputs });
        }
        Ok(idle)
    }

    /// The next job of the pass, the latest first, or none where none is left.
    pub fn reclaim_next(
        &mut self,
        before: Option<u64>,
        clock: ClockReading,
        gone: &Vec<PayloadStatus>,
    ) -> (r: Result<Option<Reclaimed>, StoreError>)
        requires
            old(self)@.well_formed(),
        ensures
            final(self)@.well_formed(),
            match r {
                Ok(step) => old(self)@.reclaim_step(before, clock, gone@) == Ok::<
                    (Tables, Option<Reclaimed>),
                    Fault,
                >((final(self)@, step)),
                Err(e) => old(self)@.reclaim_step(before, clock, gone@) == Err::<
                    (Tables, Option<Reclaimed>),
                    Fault,
                >(e.fault()) && final(self)@ == old(self)@,
            },
    {
        reveal(Tables::reclaim_step);
        let now = self.check_clock(clock)?;
        let ghost t = self@;
        let ghost p = t.reclaimable(before);
        let mut i: usize = self.work.len();
        assert(t.work.take(i as int) =~= t.work);
        while i > 0
            invariant
                i <= t.work.len(),
                self@ == t,
                t == old(self)@,
                t.well_formed(),
                t.safe(clock),
                now == clock.utc_ms,
                p == t.reclaimable(before),
                table::latest(t.work, p, 1) == table::latest(t.work.take(i as int), p, 1),
            decreases i,
        {
            i -= 1;
            proof {
                assert(t.work.take(i + 1).drop_last() =~= t.work.take(i as int));
                assert(t.work.take(i + 1).last() == t.work[i as int]);
            }
            let in_range = match before {
                Some(b) => self.work[i].row < b,
                None => true,
            };
            if self.work[i].job.is_some() && in_range && self.find_session(
                self.work[i].generation,
            ).is_some() {
                proof {
                    reveal(Tables::reclaim_step);
                    assert(p(t.work[i as int]));
                    assert(table::latest(t.work.take(i + 1), p, 1)[0] == i);
                }
                let step = self.reclaim_at(i, now, gone)?;
                return Ok(Some(step));
            }
            assert(!p(t.work[i as int]));
        }
        assert(table::latest(t.work.take(0), p, 1).len() == 0);
        Ok(None)
    }

    /// Local maintenance, independent of a caller's current permission. A
    /// trusted non-regressed clock is required, including after revocation; it is read once for
    /// each job. Jobs and files use separate bounded passes; prior commits survive a
    /// later refusal. Retain this cursor across calls or start a fresh pass.
    pub fn reclaim(
        &mut self,
        cursor: &mut RetentionCursor,
        limit: usize,
        clocks: &Vec<ClockReading>,
        gone: &Vec<PayloadStatus>,
    ) -> (r: Result<RetentionProgress, StoreError>)
        requires
            old(self)@.well_formed(),
            limit <= 256 ==> clocks@.len() >= limit,
        ensures
            final(self)@.well_formed(),
            old(self)@.reclaimed(
                *old(cursor),
                limit as nat,
                clocks@,
                gone@,
                r,
                final(self)@,
                *final(cursor),
            ),
    {
        if limit < 1 || limit > 256 {
            return Err(protocol(ErrorCode::LimitExceeded, "invalid retention batch"));
        }
        match cursor.binding {
            Some(binding) => {
                if binding != self.store_id {
                    return Err(
                        protocol(
                            ErrorCode::Conflict,
                            "retention cursor belongs to another authority",
                        ),
                    );
                }
            },
            None => {},
        }
        let ghost t = self@;
        let ghost c = *cursor;
        cursor.binding = Some(self.store_id);
        let mut report = RetentionProgress {
            inspected_jobs: 0,
            committed_intents: 0,
            released_inputs: 0,
            released_outputs: 0,
            inspected_files: 0,
            removed_files: 0,
        };
        let mut n: usize = 0;
        let mut done = false;
        assert(clocks@.take(0) =~= Seq::empty());
        while n < limit && !done
            invariant
                self@.well_formed(),
                t == old(self)@,
                c == *old(cursor),
                1 <= limit <= 256,
                n <= limit <= clocks@.len(),
                c.binding is None || c.binding == Some(t.store_id),
                *cursor == (RetentionCursor {
                    binding: Some(t.store_id),
                    before: cursor.before,
                    ..c
                }),
                report.inspected_jobs <= n,
                report.committed_intents <= n,
                report.released_inputs <= n,
                report.released_outputs <= n,
                report.inspected_files == 0,
                report.removed_files == 0,
                ({
                    let run = t.reclaim_run(c.before, clocks@.take(n as int), gone@);
                    &&& run.tables == self@
                    &&& run.before == cursor.before
                    &&& run.fault is None
                    &&& run.done == done
                    &&& run.inspected == report.inspected_jobs
                    &&& run.intents == report.committed_intents
                    &&& run.inputs == report.released_inputs
                    &&& run.outputs == report.released_outputs
                }),
            decreases limit - n,
        {
            proof {
                assert(clocks@.take(n + 1).drop_last() =~= clocks@.take(n as int));
                assert(clocks@.take(n + 1).last() == clocks@[n as int]);
            }
            let ghost mid = self@;
            match self.reclaim_next(cursor.before, clocks[n], gone) {
                Ok(Some(step)) => {
                    cursor.before = Some(step.row);
                    report.inspected_jobs += 1;
                    if step.intent {
                        report.committed_intents += 1;
                    }
                    if step.input {
                        report.released_inputs += 1;
                    }
                    if step.outputs {
                        report.released_outputs += 1;
                    }
                },
                Ok(None) => {
                    assert(self@ == mid) by {
                        reveal(Tables::reclaim_step);
                    }
                    cursor.before = None;
                    done = true;
                },
                Err(e) => {
                    proof {
                        assert(clocks@.take(limit as int).take(n + 1) =~= clocks@.take(n + 1));
                        lemma_reclaim_stops(t, c.before, clocks@.take(limit as int), gone@, n + 1);
                    }
                    return Err(e);
                },
            }
            n += 1;
        }
        proof {
            assert(clocks@.take(limit as int).take(n as int) =~= clocks@.take(n as int));
            if n < limit {
                lemma_reclaim_stops(t, c.before, clocks@.take(limit as int), gone@, n as int);
            }
        }
        Ok(report)
    }
}

/// A pass that has ended stays as it is.
proof fn lemma_reclaim_stops(
    t: Tables,
    before: Option<u64>,
    clocks: Seq<ClockReading>,
    gone: Seq<PayloadStatus>,
    n: int,
)
    requires
        0 <= n <= clocks.len(),
        ({
            let run = t.reclaim_run(before, clocks.take(n), gone);
            run.done || run.fault is Some
        }),
    ensures
        t.reclaim_run(before, clocks, gone) == t.reclaim_run(before, clocks.take(n), gone),
    decreases clocks.len() - n,
{
    if n < clocks.len() {
        assert(clocks.take(n + 1).drop_last() =~= clocks.take(n));
        lemma_reclaim_stops(t, before, clocks, gone, n + 1);
    } else {
        assert(clocks.take(n) =~= clocks);
    }
}

} // verus!
