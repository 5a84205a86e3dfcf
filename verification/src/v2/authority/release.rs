//! When the authority lets go: of the resources that it holds for work, and of whole sessions. All of
//! it is told from the rows.

use super::super::error::MAX_NUMBER;
use super::super::numbers::{Id, Number};
use super::conduct;
use super::evidence::Proof;
use super::promises;
use super::retention;
use super::retirement::{
    self, PayloadStatus, RetireStep, RetirementCursor, RetirementProgress,
};
use super::store::{
    self, ClockReading, Fault, Job, Release, ScopeRow, SessionRow, StoreError, Tables, WorkRow,
};
use super::table;
use vstd::prelude::*;

verus! {

/// The row is that of a scope.
pub open spec fn scope_row(t: Tables, k: int, generation: Id, scope: u64) -> bool {
    0 <= k < t.scopes.len() && t.scopes[k].generation == generation && t.scopes[k].scope.0 == scope
}

/// The row is that of a unit of work.
pub open spec fn work_row(t: Tables, m: int, generation: Id, scope: u64, entity: u64) -> bool {
    &&& 0 <= m < t.work.len()
    &&& t.work[m].generation == generation
    &&& t.work[m].view.work.scope.0 == scope
    &&& t.work[m].view.work.entity.0 == entity
}

/// There is one row for a scope.
pub proof fn lemma_scope_row(t: Tables, k: int, generation: Id, scope: u64)
    requires
        t.arranged(),
        scope_row(t, k, generation, scope),
    ensures
        t.scope_at(generation, Number(scope)) == k,
{
    let p = store::is_scope(generation, Number(scope));
    assert(t.scopes[k].scope == Number(scope));
    assert forall|i: int| 0 <= i < k implies !p(#[trigger] t.scopes[i]) by {
        if t.scopes[i].generation == generation {
            assert(t.scopes[i].scope != t.scopes[k].scope);
        }
    }
    table::lemma_index_unique(t.scopes, p, k);
}

/// There is one row for a unit of work.
pub proof fn lemma_work_row(t: Tables, m: int, generation: Id, scope: Number, entity: Id)
    requires
        t.arranged(),
        work_row(t, m, generation, scope.0, entity.0),
    ensures
        t.work_at(generation, scope, entity) == m,
{
    let p = store::is_work(generation, scope, entity);
    assert(t.work[m].view.work.scope == scope && t.work[m].view.work.entity == entity);
    assert forall|i: int| 0 <= i < m implies !p(#[trigger] t.work[i]) by {
        if p(t.work[i]) {
            assert(t.work[i].view.work.entity.0 < t.work[m].view.work.entity.0);
        }
    }
    table::lemma_index_unique(t.work, p, m);
}

/// There is one row for a session.
pub proof fn lemma_session_row(t: Tables, i: int)
    requires
        t.arranged(),
        0 <= i < t.sessions.len(),
    ensures
        t.session_at(t.sessions[i].binding.identity.generation) == i,
{
    reveal(Tables::accounted);
    let p = store::is_session(t.sessions[i].binding.identity.generation);
    assert forall|j: int| 0 <= j < i implies !p(#[trigger] t.sessions[j]) by {
        assert(t.sessions[j].binding.identity.generation.0
            < t.sessions[i].binding.identity.generation.0);
    }
    table::lemma_index_unique(t.sessions, p, i);
}

/// Where the work stands: the row of its scope, the row of the work that opened that scope, and the
/// row of the scope that was opened for it.
pub struct Place {
    pub scope: int,
    pub parent: int,
    pub child: int,
}

pub open spec fn placed(t: Tables, j: int, at: Place) -> bool {
    let row = t.work[j];
    &&& scope_row(t, at.scope, row.generation, row.view.work.scope.0)
    &&& t.scopes[at.scope].parent matches Some(parent) ==> work_row(
        t,
        at.parent,
        row.generation,
        parent.scope.0,
        parent.entity.0,
    ) && t.work[at.parent].view.work.producer == parent.producer
    &&& row.view.child matches Some(child) ==> scope_row(
        t,
        at.child,
        row.generation,
        child.scope.0,
    )
}

/// Nothing below the work is open at the time.
pub open spec fn below_closed(t: Tables, j: int, at: Place, time: u64) -> bool {
    t.work[j].view.child is Some ==> (t.scopes[at.child].summary matches Some(s) && s.closed_at.0
        <= time)
}

/// The work that opened the scope has come to an end by the time.
pub open spec fn above_over(t: Tables, at: Place, time: u64) -> bool {
    t.scopes[at.scope].parent is Some ==> conduct::over(t.work[at.parent]) && (
    t.work[at.parent].view.terminal_at matches Some(end) && end.0 <= time)
}

/// Nobody is owed the outputs of the work any longer.
pub open spec fn outputs_free(t: Tables, j: int, at: Place, time: u64) -> bool {
    &&& t.work[j].view.output_until matches Some(until) ==> until.0 <= time
    &&& above_over(t, at, time)
}

/// An intent that was committed kept every promise at its time.
pub open spec fn kept(t: Tables, j: int, at: Place, release: Release) -> bool {
    &&& conduct::over(t.work[j])
    &&& t.work[j].view.terminal_at matches Some(end) && end.0 <= release.at.0
    &&& release.at.0 <= t.greatest
    &&& below_closed(t, j, at, release.at.0)
    &&& release.outputs ==> outputs_free(t, j, at, release.at.0)
}

proof fn lemma_placed(t: Tables, j: int, at: Place, time: Number)
    requires
        t.arranged(),
        0 <= j < t.work.len(),
        placed(t, j, at),
    ensures
        t.children_closed(t.work[j].generation, t.work[j].view, time) == Ok::<bool, Fault>(
            below_closed(t, j, at, time.0),
        ),
        t.parent_settled(t.work[j].generation, t.work[j].view, time) == Ok::<bool, Fault>(
            above_over(t, at, time.0),
        ),
{
    let row = t.work[j];
    lemma_scope_row(t, at.scope, row.generation, row.view.work.scope.0);
    if t.scopes[at.scope].parent is Some {
        let parent = t.scopes[at.scope].parent->0;
        lemma_work_row(t, at.parent, row.generation, parent.scope, parent.entity);
    }
    if row.view.child is Some {
        lemma_scope_row(t, at.child, row.generation, (row.view.child->0).scope.0);
    }
}

/// What becomes of the resources of a job. Whichever end its work came to, once nothing below it is
/// open an intent is committed to give the input back, and the outputs too where nobody is owed them; an
/// intent that held the outputs back is widened once nobody is. What an intent names goes as soon as
/// the payload store no longer has it. Work that goes on, or below which a scope is open, keeps all.
pub proof fn law_ended_work_is_reclaimed(t: Tables, j: int, at: Place, now: Number, gone: Seq<PayloadStatus>)
    requires
        t.arranged(),
        0 <= j < t.work.len(),
        placed(t, j, at),
        t.greatest <= now.0,
        t.work[j].job is Some,
        conduct::over(t.work[j]) ==> (t.work[j].view.terminal_at matches Some(end) && end.0 <= now.0),
        t.work[j].job->0.release matches Some(r) ==> kept(t, j, at, r),
    ensures
        t.reclaim_job(j, now, gone) is Ok,
        ({
            let (after, step) = t.reclaim_job(j, now, gone)->Ok_0;
            let job = t.work[j].job->0;
            let free = outputs_free(t, j, at, now.0);
            let named_input = job.release matches Some(r) && r.input;
            let named_outputs = job.release matches Some(r) && r.outputs;
            let status = retirement::payload_gone(gone, t.work[j].row);
            let new = after.work[j].job->0;
            &&& step.row == t.work[j].row
            &&& after.work.len() == t.work.len()
            &&& forall|i: int| 0 <= i < t.work.len() && i != j ==> #[trigger] after.work[i] == t.work[i]
            &&& after.work[j].view == t.work[j].view
            &&& after.work[j].job is Some
            &&& new.executor_live == job.executor_live && new.stage == job.stage && new.lease_until
                == job.lease_until
            &&& if !conduct::over(t.work[j]) || !below_closed(t, j, at, now.0) {
                after == t && !step.intent && !step.input && !step.outputs
            } else if !named_input || (!named_outputs && free) {
                &&& step.intent && !step.input && !step.outputs
                &&& new.release == Some(
                    Release { input: true, outputs: named_outputs || free, at: now },
                )
                &&& new.input_live == job.input_live && new.outputs_live == job.outputs_live
                &&& after.greatest == now.0
            } else {
                &&& !step.intent
                &&& new.release == job.release
                &&& new.input_live == (job.input_live && !status.0)
                &&& new.outputs_live == (job.outputs_live && !(named_outputs && status.1))
                &&& step.input == (job.input_live && !new.input_live)
                &&& step.outputs == (job.outputs_live && !new.outputs_live)
            }
        }),
{
    let row = t.work[j];
    let job = row.job->0;
    lemma_placed(t, j, at, now);
    if job.release is Some {
        lemma_placed(t, j, at, job.release->0.at);
    }
    let previous = match job.release {
        Some(release) => release,
        None => Release { input: false, outputs: false, at: now },
    };
    let due = t.outputs_due(row.generation, row.view, now);
    let release = Release { input: true, outputs: previous.outputs || due->Ok_0, at: now };
    let intended = t.with_job(j, Job { release: Some(release), ..job }, now);
    assert forall|k: int| 0 <= k < t.work.len() implies (#[trigger] t.work[k]).view
        == intended.work[k].view && t.work[k].generation == intended.work[k].generation by {}
    let s = t.scope_at(row.generation, row.view.work.scope);
    lemma_scope_row(t, at.scope, row.generation, row.view.work.scope.0);
    if t.scopes[s].parent is Some {
        let parent = t.scopes[s].parent->0;
        let p = store::is_work(row.generation, parent.scope, parent.entity);
        lemma_work_row(t, at.parent, row.generation, parent.scope, parent.entity);
        table::lemma_index_alike(t.work, p, intended.work);
    }
}

/// What the payload store says of a row is what its first status of that row says; what it says
/// nothing of is not gone.
pub proof fn law_status_is_taken_as_told(statuses: Seq<PayloadStatus>, row: u64, i: int)
    ensures
        0 <= i < statuses.len() && statuses[i].row == row && (forall|j: int|
            0 <= j < i ==> (#[trigger] statuses[j]).row != row) ==> retirement::payload_gone(
            statuses,
            row,
        ) == (statuses[i].input_gone, statuses[i].outputs_gone),
        (forall|j: int| 0 <= j < statuses.len() ==> (#[trigger] statuses[j]).row != row)
            ==> retirement::payload_gone(statuses, row) == (false, false),
{
    let p = retirement::is_status(row);
    if 0 <= i < statuses.len() && statuses[i].row == row && (forall|j: int|
        0 <= j < i ==> (#[trigger] statuses[j]).row != row) {
        assert forall|j: int| 0 <= j < i implies !p(#[trigger] statuses[j]) by {}
        table::lemma_index_unique(statuses, p, i);
    }
    if forall|j: int| 0 <= j < statuses.len() ==> (#[trigger] statuses[j]).row != row {
        assert forall|j: int| 0 <= j < statuses.len() implies !p(#[trigger] statuses[j]) by {}
        table::lemma_index_unique(statuses, p, statuses.len() as int);
    }
}

/// The latest row that satisfies a predicate, where one does.
pub proof fn lemma_latest_one<T>(s: Seq<T>, p: spec_fn(T) -> bool)
    ensures
        if table::latest(s, p, 1).len() == 0 {
            forall|i: int| 0 <= i < s.len() ==> !p(#[trigger] s[i])
        } else {
            let n = table::latest(s, p, 1)[0];
            &&& 0 <= n < s.len()
            &&& p(s[n])
            &&& forall|i: int| n < i < s.len() ==> !p(#[trigger] s[i])
        },
    decreases s.len(),
{
    if s.len() > 0 && !p(s.last()) {
        let front = s.drop_last();
        lemma_latest_one(front, p);
        assert(table::latest(s, p, 1) == table::latest(front, p, 1));
        if table::latest(front, p, 1).len() == 0 {
            assert forall|i: int| 0 <= i < s.len() implies !p(#[trigger] s[i]) by {
                if i < front.len() {
                    assert(front[i] == s[i]);
                }
            }
        } else {
            let n = table::latest(front, p, 1)[0];
            assert(front[n] == s[n]);
            assert forall|i: int| n < i < s.len() implies !p(#[trigger] s[i]) by {
                if i < front.len() {
                    assert(front[i] == s[i]);
                }
            }
        }
    } else if s.len() > 0 {
        assert(s[s.len() - 1] == s.last());
    }
}

/// The pass over the jobs takes the latest row first and goes down from there: a step looks at the job
/// with the greatest row number below where the pass stands, of a session that is there, and ends the
/// pass only where no such job is left.
pub proof fn law_job_pass_goes_down(
    t: Tables,
    before: Option<u64>,
    clock: ClockReading,
    gone: Seq<PayloadStatus>,
)
    requires
        t.arranged(),
    ensures
        match t.reclaim_step(before, clock, gone) {
            Err(_) => true,
            Ok((after, None)) => after == t && forall|j: int|
                0 <= j < t.work.len() && (#[trigger] t.work[j]).job is Some && (before matches Some(
                    b,
                ) ==> t.work[j].row < b) ==> t.session_at(t.work[j].generation)
                    >= t.sessions.len(),
            Ok((after, Some(step))) => exists|j: int|
                {
                    &&& 0 <= j < t.work.len()
                    &&& (#[trigger] t.work[j]).job is Some
                    &&& before matches Some(b) ==> t.work[j].row < b
                    &&& t.session_at(t.work[j].generation) < t.sessions.len()
                    &&& t.reclaim_job(j, clock.utc_ms, gone) == Ok::<
                        (Tables, retention::Reclaimed),
                        Fault,
                    >((after, step))
                    &&& step.row == t.work[j].row
                    &&& forall|i: int|
                        0 <= i < t.work.len() && (#[trigger] t.work[i]).job is Some && (
                        before matches Some(b) ==> t.work[i].row < b) && t.session_at(
                            t.work[i].generation,
                        ) < t.sessions.len() ==> t.work[i].row <= t.work[j].row
                },
        },
        t.reclaim_step(before, clock, gone) is Ok ==> clock.trusted && clock.utc_ms.0
            >= t.greatest,
{
    reveal(Tables::reclaim_step);
    let p = t.reclaimable(before);
    lemma_latest_one(t.work, p);
    let rows = table::latest(t.work, p, 1);
    if rows.len() > 0 && t.reclaim_step(before, clock, gone) is Ok {
        let j = rows[0];
        assert(p(t.work[j]));
        assert forall|i: int|
            0 <= i < t.work.len() && (#[trigger] t.work[i]).job is Some && (before matches Some(b)
                ==> t.work[i].row < b) && t.session_at(t.work[i].generation)
                < t.sessions.len() implies t.work[i].row <= t.work[j].row by {
            assert(p(t.work[i]));
            if i < j {
                assert(t.work[i].row < t.work[j].row);
            }
        }
    } else if rows.len() == 0 {
        assert forall|j: int|
            0 <= j < t.work.len() && (#[trigger] t.work[j]).job is Some && (before matches Some(b)
                ==> t.work[j].row < b) implies t.session_at(t.work[j].generation)
            >= t.sessions.len() by {
            assert(!p(t.work[j]));
        }
    }
}

/// A row that satisfies a predicate is listed among those that do.
pub proof fn lemma_row_listed<T>(s: Seq<T>, p: spec_fn(T) -> bool, j: int) -> (n: int)
    requires
        0 <= j < s.len(),
        p(s[j]),
    ensures
        0 <= n < table::rows_where(s, p).len(),
        table::rows_where(s, p)[n] == s[j],
    decreases s.len(),
{
    let front = s.drop_last();
    if j == front.len() {
        table::rows_where(s, p).len() - 1
    } else {
        let n = lemma_row_listed(front, p, j);
        n
    }
}

/// The executor or the payload store holds something for the work.
pub open spec fn held(row: WorkRow) -> bool {
    row.job matches Some(job) && (job.executor_live || job.input_live || job.outputs_live)
}

/// The work has come to an end, and what was promised of it ran out by the time.
pub open spec fn run_out(row: WorkRow, time: u64) -> bool {
    &&& conduct::over(row)
    &&& row.view.receipt_until matches Some(at) && at.0 <= time
    &&& row.view.output_until matches Some(at) ==> at.0 <= time
}

/// What the work of a session adds to the time until which it is owed something.
proof fn lemma_cutoff(rows: Seq<WorkRow>, start: Number, now: u64)
    requires
        start.0 <= now,
        forall|i: int| 0 <= i < rows.len() ==> run_out(#[trigger] rows[i], now) && !held(rows[i]),
    ensures
        retirement::work_cutoff(rows, start) matches Ok(Some(cutoff)) && {
            &&& start.0 <= cutoff.0 <= now
            &&& forall|i: int| 0 <= i < rows.len() ==> run_out(#[trigger] rows[i], cutoff.0)
        },
    decreases rows.len(),
{
    if rows.len() > 0 {
        let front = rows.drop_last();
        assert forall|i: int| 0 <= i < front.len() implies run_out(#[trigger] front[i], now)
            && !held(front[i]) by {
            assert(front[i] == rows[i]);
        }
        lemma_cutoff(front, start, now);
        let before = retirement::work_cutoff(front, start)->Ok_0->0;
        let last = rows[rows.len() - 1];
        assert(run_out(last, now) && !held(last));
        let cutoff = retirement::work_cutoff(rows, start)->Ok_0->0;
        assert forall|i: int| 0 <= i < rows.len() implies run_out(#[trigger] rows[i], cutoff.0) by {
            if i < front.len() {
                assert(run_out(front[i], before.0));
            }
        }
    }
}

/// Where a cutoff was found, the work has run out by it and nothing is held.
proof fn lemma_cutoff_found(rows: Seq<WorkRow>, start: Number)
    ensures
        retirement::work_cutoff(rows, start) matches Ok(Some(cutoff)) ==> {
            &&& start.0 <= cutoff.0
            &&& forall|i: int|
                0 <= i < rows.len() ==> run_out(#[trigger] rows[i], cutoff.0) && !held(rows[i])
            &&& cutoff == start || exists|i: int|
                0 <= i < rows.len() && ((#[trigger] rows[i]).view.receipt_until == Some(cutoff)
                    || rows[i].view.output_until == Some(cutoff))
        },
    decreases rows.len(),
{
    if rows.len() > 0 {
        let front = rows.drop_last();
        lemma_cutoff_found(front, start);
        if retirement::work_cutoff(rows, start) matches Ok(Some(_)) {
            let cutoff = retirement::work_cutoff(rows, start)->Ok_0->0;
            let before = retirement::work_cutoff(front, start)->Ok_0->0;
            let last = rows[rows.len() - 1];
            assert forall|i: int| 0 <= i < rows.len() implies run_out(
                #[trigger] rows[i],
                cutoff.0,
            ) && !held(rows[i]) by {
                if i < front.len() {
                    assert(run_out(front[i], before.0) && !held(front[i]));
                }
            }
            if cutoff == before && cutoff != start {
                let i = choose|i: int|
                    0 <= i < front.len() && ((#[trigger] front[i]).view.receipt_until == Some(
                        cutoff,
                    ) || front[i].view.output_until == Some(cutoff));
                assert(rows[i] == front[i]);
            } else if cutoff != before {
                assert(last.view.receipt_until == Some(cutoff) || last.view.output_until == Some(
                    cutoff,
                ));
            }
        }
    }
}

/// The session is over and owes nothing: its root closed and the time to keep receipts passed since,
/// every scope was closed by then, all of its work has come to an end whose promises ran out, and
/// nothing is held for any of it.
pub open spec fn quiet(t: Tables, i: int, k: int, now: u64) -> bool {
    let generation = t.sessions[i].binding.identity.generation;
    let due = (t.scopes[k].summary->0).closed_at.0
        + t.sessions[i].binding.policy.receipt_retention_ms.0;
    &&& 0 <= i < t.sessions.len()
    &&& scope_row(t, k, generation, 0)
    &&& t.scopes[k].summary is Some
    &&& due <= now
    &&& forall|j: int|
        0 <= j < t.work.len() && (#[trigger] t.work[j]).generation == generation ==> run_out(
            t.work[j],
            now,
        ) && !held(t.work[j])
    &&& forall|s: int|
        0 <= s < t.scopes.len() && (#[trigger] t.scopes[s]).generation == generation ==> (
        t.scopes[s].summary matches Some(closing) && closing.closed_at.0 <= due)
}

/// A quiet session may be retired, by evidence of its root and of the time by which the last promise
/// ran out.
pub proof fn law_quiet_session_may_retire(t: Tables, i: int, k: int, now: Number)
    requires
        t.arranged(),
        now.0 <= MAX_NUMBER,
        quiet(t, i, k, now.0),
    ensures
        ({
            let generation = t.sessions[i].binding.identity.generation;
            t.eligible(generation, now, None) matches Ok(Some(evidence)) && Some(evidence.root)
                == t.scopes[k].summary && evidence.cutoff.0 <= now.0
        }),
{
    let generation = t.sessions[i].binding.identity.generation;
    lemma_session_row(t, i);
    lemma_scope_row(t, k, generation, 0);
    let due = store::later(
        (t.scopes[k].summary->0).closed_at,
        t.sessions[i].binding.policy.receipt_retention_ms,
    )->0;
    let p = retirement::of_generation(generation);
    let rows = t.session_work(generation);
    assert forall|n: int| 0 <= n < rows.len() implies run_out(#[trigger] rows[n], now.0) && !held(
        rows[n],
    ) by {
        let j = table::lemma_rows_where_from(t.work, p, n);
        assert(t.work[j] == rows[n]);
    }
    lemma_cutoff(rows, due, now.0);
}

/// A session that may be retired is quiet by the time that its evidence names, which is no earlier than
/// any promise and no later than the last of them. So nothing is held for its work.
pub proof fn law_retiring_session_is_quiet(t: Tables, i: int, k: int, now: Number, audit: Option<Fault>)
    requires
        t.arranged(),
        0 <= i < t.sessions.len(),
        scope_row(t, k, t.sessions[i].binding.identity.generation, 0),
        t.eligible(t.sessions[i].binding.identity.generation, now, audit) matches Ok(Some(_)),
    ensures
        ({
            let generation = t.sessions[i].binding.identity.generation;
            let evidence = t.eligible(generation, now, audit)->Ok_0->0;
            let due = evidence.root.closed_at.0
                + t.sessions[i].binding.policy.receipt_retention_ms.0;
            &&& audit is None
            &&& t.scopes[k].summary == Some(evidence.root)
            &&& due <= evidence.cutoff.0 <= now.0
            &&& evidence.cutoff.0 == due || exists|j: int|
                0 <= j < t.work.len() && (#[trigger] t.work[j]).generation == generation && (
                t.work[j].view.receipt_until == Some(evidence.cutoff)
                    || t.work[j].view.output_until == Some(evidence.cutoff))
            &&& forall|j: int|
                0 <= j < t.work.len() && (#[trigger] t.work[j]).generation == generation ==> run_out(
                    t.work[j],
                    evidence.cutoff.0,
                ) && !held(t.work[j])
            &&& forall|s: int|
                0 <= s < t.scopes.len() && (#[trigger] t.scopes[s]).generation == generation ==> (
                t.scopes[s].summary matches Some(closing) && closing.closed_at.0
                    <= evidence.cutoff.0)
        }),
{
    let generation = t.sessions[i].binding.identity.generation;
    lemma_session_row(t, i);
    lemma_scope_row(t, k, generation, 0);
    let evidence = t.eligible(generation, now, audit)->Ok_0->0;
    let due = store::later(
        evidence.root.closed_at,
        t.sessions[i].binding.policy.receipt_retention_ms,
    )->0;
    let p = retirement::of_generation(generation);
    let rows = t.session_work(generation);
    lemma_cutoff_found(rows, due);
    assert forall|j: int|
        0 <= j < t.work.len() && (#[trigger] t.work[j]).generation == generation implies run_out(
        t.work[j],
        evidence.cutoff.0,
    ) && !held(t.work[j]) by {
        let n = lemma_row_listed(t.work, p, j);
        assert(run_out(rows[n], evidence.cutoff.0));
    }
    if evidence.cutoff != due {
        let n = choose|n: int|
            0 <= n < rows.len() && ((#[trigger] rows[n]).view.receipt_until == Some(evidence.cutoff)
                || rows[n].view.output_until == Some(evidence.cutoff));
        let j = table::lemma_rows_where_from(t.work, p, n);
        assert(t.work[j].generation == generation);
    }
}

/// A session for which a resource is held, or that is owed a promise, is not retired.
pub proof fn law_owed_session_stays(t: Tables, i: int, k: int, j: int, now: Number, audit: Option<Fault>)
    requires
        t.arranged(),
        0 <= i < t.sessions.len(),
        scope_row(t, k, t.sessions[i].binding.identity.generation, 0),
        0 <= j < t.work.len(),
        t.work[j].generation == t.sessions[i].binding.identity.generation,
        held(t.work[j]) || !run_out(t.work[j], now.0),
    ensures
        !(t.eligible(t.sessions[i].binding.identity.generation, now, audit) matches Ok(Some(_))),
{
    let generation = t.sessions[i].binding.identity.generation;
    if t.eligible(generation, now, audit) matches Ok(Some(_)) {
        law_retiring_session_is_quiet(t, i, k, now, audit);
        let evidence = t.eligible(generation, now, audit)->Ok_0->0;
        assert(run_out(t.work[j], evidence.cutoff.0) && !held(t.work[j]));
    }
}

/// The newest session below a generation.
proof fn lemma_newest(s: Seq<SessionRow>, before: Option<u64>)
    ensures
        ({
            let n = retirement::newest_session(s, before);
            &&& n < s.len()
            &&& n >= 0 ==> (before matches Some(b) ==> s[n].binding.identity.generation.0 < b)
            &&& forall|i: int|
                0 <= i < s.len() && (before matches Some(b) ==> (
                #[trigger] s[i]).binding.identity.generation.0 < b) ==> n >= 0
                    && s[i].binding.identity.generation.0 <= s[n].binding.identity.generation.0
        }),
    decreases s.len(),
{
    if s.len() > 0 {
        let front = s.drop_last();
        lemma_newest(front, before);
        let n = retirement::newest_session(s, before);
        assert forall|i: int|
            0 <= i < s.len() && (before matches Some(b) ==> (
            #[trigger] s[i]).binding.identity.generation.0 < b) implies n >= 0
            && s[i].binding.identity.generation.0 <= s[n].binding.identity.generation.0 by {
            if i < front.len() {
                assert(front[i] == s[i]);
            }
        }
    }
}

/// Sessions are looked at from the newest down.
pub proof fn law_newest_session_first(s: Seq<SessionRow>, before: Option<u64>, i: int)
    requires
        0 <= i < s.len(),
        before matches Some(b) ==> s[i].binding.identity.generation.0 < b,
    ensures
        ({
            let n = retirement::newest_session(s, before);
            &&& 0 <= n < s.len()
            &&& before matches Some(b) ==> s[n].binding.identity.generation.0 < b
            &&& s[i].binding.identity.generation.0 <= s[n].binding.identity.generation.0
        }),
{
    lemma_newest(s, before);
}

/// A call that comes to a quiet session commits the intent to retire it: the session is marked, the
/// evidence is written down, and nothing is deleted yet.
pub proof fn law_quiet_session_is_retired(
    t: Tables,
    cursor: RetirementCursor,
    limit: nat,
    clock: ClockReading,
    steps: Seq<ClockReading>,
    gone: Seq<PayloadStatus>,
    r: Result<RetirementProgress, StoreError>,
    after: Tables,
    next: RetirementCursor,
    i: int,
    k: int,
)
    requires
        t.well_formed(),
        t.safe(clock),
        1 <= limit <= 256,
        cursor.binding is None || cursor.binding == Some(t.store_id),
        i == retirement::newest_session(t.sessions, cursor.before),
        quiet(t, i, k, clock.utc_ms.0),
        !t.sessions[i].retiring,
        t.retirement_at(t.sessions[i].binding.identity.generation) >= t.retirements.len(),
        t.retired(cursor, limit, clock, steps, gone, None, r, after, next),
    ensures
        r matches Ok(p) && p.started && p.inspected_session == Some(
            t.sessions[i].binding.identity.generation,
        ) && p.deleted_work == 0 && p.deleted_scopes == 0 && p.deleted_operations == 0
            && !p.completed,
        after.sessions == t.sessions.update(i, SessionRow { retiring: true, ..t.sessions[i] }),
        after.retirements.len() == t.retirements.len() + 1,
        after.retirements.last().generation == t.sessions[i].binding.identity.generation,
        Some(after.retirements.last().evidence.root) == t.scopes[k].summary,
        after.work == t.work,
        after.scopes == t.scopes,
        after.operations == t.operations,
{
    let generation = t.sessions[i].binding.identity.generation;
    let now = clock.utc_ms;
    lemma_session_row(t, i);
    law_quiet_session_may_retire(t, i, k, now);
    let evidence = t.eligible(generation, now, None)->Ok_0->0;
    assert(t.retirement_of(generation) == Ok::<Option<int>, Fault>(None));
    if r is Err {
        let unproved = choose|unproved: Proof|
            #[trigger] t.evidences(generation, evidence, now, unproved) && t.with_intent(
                generation,
                now,
                unproved,
            ).retirement_of(generation) == Err::<Option<int>, Fault>(r->Err_0.fault());
        promises::law_retirement_evidence_is_borne_out(t, generation, clock, evidence, unproved);
    }
}

proof fn lemma_last_child(s: Seq<ScopeRow>, generation: Id)
    ensures
        ({
            let n = retirement::last_child_scope(s, generation);
            &&& n < s.len()
            &&& n >= 0 ==> s[n].generation == generation && s[n].scope.0 != 0
            &&& forall|i: int|
                0 <= i < s.len() && (#[trigger] s[i]).generation == generation && s[i].scope.0 != 0
                    ==> n >= 0 && s[i].scope.0 <= s[n].scope.0
        }),
    decreases s.len(),
{
    if s.len() > 0 {
        let front = s.drop_last();
        lemma_last_child(front, generation);
        let n = retirement::last_child_scope(s, generation);
        assert forall|i: int|
            0 <= i < s.len() && (#[trigger] s[i]).generation == generation && s[i].scope.0
                != 0 implies n >= 0 && s[i].scope.0 <= s[n].scope.0 by {
            if i < front.len() {
                assert(front[i] == s[i]);
            }
        }
    }
}

/// Deletion takes the rows of its session one by one and those of no other: first the work, the latest
/// first, then the scopes below the root, the last first, then what operations left, and with the
/// last step the root, the evidence and the session.
pub proof fn law_deletion_takes_its_own_rows(
    t: Tables,
    generation: Id,
    clock: ClockReading,
    gone: Seq<PayloadStatus>,
)
    requires
        t.arranged(),
        t.retire_step(generation, clock, gone) is Ok,
    ensures
        ({
            let (after, step) = t.retire_step(generation, clock, gone)->Ok_0;
            let no_work = forall|j: int|
                0 <= j < t.work.len() ==> (#[trigger] t.work[j]).generation != generation;
            let no_scope = forall|k: int|
                0 <= k < t.scopes.len() ==> (#[trigger] t.scopes[k]).generation != generation
                    || t.scopes[k].scope.0 == 0;
            let no_operation = forall|n: int|
                0 <= n < t.operations.len() ==> (#[trigger] t.operations[n]).generation
                    != generation;
            match step {
                RetireStep::Work => exists|j: int|
                    {
                        &&& 0 <= j < t.work.len()
                        &&& (#[trigger] t.work[j]).generation == generation
                        &&& after == (Tables { work: t.work.remove(j), ..t })
                        &&& conduct::over(t.work[j])
                        &&& forall|i: int|
                            0 <= i < t.work.len() && (#[trigger] t.work[i]).generation
                                == generation ==> t.work[i].row <= t.work[j].row
                    },
                RetireStep::Scope => no_work && exists|k: int|
                    {
                        &&& 0 <= k < t.scopes.len()
                        &&& (#[trigger] t.scopes[k]).generation == generation
                        &&& t.scopes[k].scope.0 != 0
                        &&& after == (Tables { scopes: t.scopes.remove(k), ..t })
                        &&& forall|i: int|
                            0 <= i < t.scopes.len() && (#[trigger] t.scopes[i]).generation
                                == generation ==> t.scopes[i].scope.0 <= t.scopes[k].scope.0
                    },
                RetireStep::Operation => no_work && no_scope && exists|n: int|
                    {
                        &&& 0 <= n < t.operations.len()
                        &&& (#[trigger] t.operations[n]).generation == generation
                        &&& after == (Tables { operations: t.operations.remove(n), ..t })
                    },
                RetireStep::Finished => no_work && no_scope && no_operation && exists|
                    i: int,
                    k: int,
                    n: int,
                |
                    {
                        &&& 0 <= i < t.sessions.len()
                        &&& (#[trigger] t.sessions[i]).binding.identity.generation == generation
                        &&& t.sessions[i].retiring
                        &&& scope_row(t, k, generation, 0)
                        &&& 0 <= n < t.retirements.len()
                        &&& (#[trigger] t.retirements[n]).generation == generation
                        &&& after == (Tables {
                            sessions: t.sessions.remove(i),
                            scopes: #[trigger] t.scopes.remove(k),
                            retirements: t.retirements.remove(n),
                            ..t
                        })
                    },
                RetireStep::Absent => after == t && forall|i: int|
                    0 <= i < t.sessions.len() && (
                    #[trigger] t.sessions[i]).binding.identity.generation == generation
                        ==> !t.sessions[i].retiring,
            }
        }),
{
    reveal(Tables::retire_step);
    let (after, step) = t.retire_step(generation, clock, gone)->Ok_0;
    let p = retirement::of_generation(generation);
    let q = retirement::operation_of(generation);
    lemma_latest_one(t.work, p);
    lemma_latest_one(t.operations, q);
    lemma_last_child(t.scopes, generation);
    table::lemma_index_where(t.sessions, store::is_session(generation));
    table::lemma_index_where(t.retirements, store::is_retirement(generation));
    table::lemma_index_where(t.scopes, store::is_scope(generation, Number(0)));
    let found = t.retirement_of(generation);
    let work = table::latest(t.work, p, 1);
    if found->Ok_0 is Some && work.len() == 0 {
        assert forall|j: int| 0 <= j < t.work.len() implies (#[trigger] t.work[j]).generation
            != generation by {
            assert(!p(t.work[j]));
        }
        let operation = table::latest(t.operations, q, 1);
        if operation.len() == 0 {
            assert forall|n: int| 0 <= n < t.operations.len() implies (
            #[trigger] t.operations[n]).generation != generation by {
                assert(!q(t.operations[n]));
            }
        } else {
            assert(q(t.operations[operation[0]]));
        }
    }
    if step is Work {
        let j = work[0];
        assert(p(t.work[j]));
        assert forall|i: int|
            0 <= i < t.work.len() && (#[trigger] t.work[i]).generation == generation implies
            t.work[i].row <= t.work[j].row by {
            assert(p(t.work[i]));
            if i < j {
                assert(t.work[i].row < t.work[j].row);
            }
        }
    }
    if step is Finished {
        let i = t.session_at(generation);
        let k = t.scope_at(generation, Number(0));
        let n = t.retirement_at(generation);
        assert(t.sessions[i].binding.identity.generation == generation);
        assert(t.retirements[n].generation == generation);
        assert(scope_row(t, k, generation, 0));
        assert(after.scopes == t.scopes.remove(k));
    }
    if step is Absent {
        assert forall|i: int|
            0 <= i < t.sessions.len() && (#[trigger] t.sessions[i]).binding.identity.generation
                == generation implies !t.sessions[i].retiring by {
            lemma_session_row(t, i);
        }
    }
}

/// A deletion that was begun goes on while every unit of work of the session has run out by the time of
/// the evidence, nothing is held for it, and the payload store has nothing of it.
pub proof fn law_deletion_goes_on(
    t: Tables,
    generation: Id,
    clock: ClockReading,
    gone: Seq<PayloadStatus>,
    n: int,
)
    requires
        t.safe(clock),
        t.retirement_of(generation) == Ok::<Option<int>, Fault>(Some(n)),
        forall|j: int|
            0 <= j < t.work.len() && (#[trigger] t.work[j]).generation == generation ==> {
                &&& run_out(t.work[j], t.retirements[n].evidence.cutoff.0)
                &&& t.work[j].view.terminal_at matches Some(at) && at.0
                    <= t.retirements[n].evidence.cutoff.0
                &&& !held(t.work[j])
                &&& t.work[j].view.admitted_at is Some ==> t.work[j].job is Some
                    && retirement::payload_gone(gone, t.work[j].row) == (true, true)
            },
    ensures
        t.retire_step(generation, clock, gone) matches Ok(r) && r.1 != RetireStep::Absent,
{
    reveal(Tables::retire_step);
    let p = retirement::of_generation(generation);
    lemma_latest_one(t.work, p);
    let work = table::latest(t.work, p, 1);
    if work.len() > 0 {
        assert(t.work[work[0]].generation == generation);
    }
}

} // verus!
