//! Rounds of upkeep: each looks at no more than it was told to, goes on where the last one stopped, and
//! is refused by a cursor of another store or a clock that may not be acted on.

use super::super::error::{ErrorCode, MAX_NUMBER};
use super::super::numbers::{Id, Number};
use super::acceptance;
use super::reconcile::{Cursor, ReconcileProgress};
use super::results::{ReadCursor, ReadMaintenance, ReadStatus, Reads};
use super::retention::{self, RetentionCursor, RetentionProgress};
use super::retirement::{self, PayloadStatus, RetirementCursor, RetirementProgress};
use super::sessions;
use super::store::{ClockReading, Fault, Grants, StoreError, Tables};
use super::table;
use vstd::prelude::*;

verus! {

/// A call came to a refusal.
pub open spec fn refused<T>(r: Result<T, StoreError>, code: ErrorCode) -> bool {
    r matches Err(e) && e.fault() == Fault::Refused(code)
}

/// A cursor was handed out by another store.
pub open spec fn of_another(t: Tables, binding: Option<u64>) -> bool {
    binding matches Some(b) && b != t.store_id
}

proof fn lemma_settled(t: Tables, rows: Seq<int>, now: Number, after: Tables, settled: nat)
    requires
        t.settle_pass(rows, now, after, settled),
    ensures
        settled <= rows.len(),
        after.store_id == t.store_id,
    decreases rows.len(),
{
    if rows.len() > 0 {
        let (mid, count) = choose|mid: Tables, count: nat|
            {
                &&& t.settle_pass(rows.drop_last(), now, mid, count)
                &&& #[trigger] mid.stepped(rows.last(), now, after, count, settled)
            };
        lemma_settled(t, rows.drop_last(), now, mid, count);
    }
}

/// A round of reconciliation looks at one to two hundred and fifty-six units of work. It goes down from
/// where the last one stopped, and starts over once there was less to look at than it was told to.
pub proof fn law_reconciliation_goes_round(
    t: Tables,
    cursor: Cursor,
    limit: nat,
    work_clock: ClockReading,
    scope_clock: ClockReading,
    r: Result<ReconcileProgress, StoreError>,
    after: Tables,
    next: Cursor,
)
    requires
        t.reconciled(cursor, limit, work_clock, scope_clock, r, after, next),
    ensures
        !(1 <= limit <= 256) ==> refused(r, ErrorCode::LimitExceeded) && after == t && next
            == cursor,
        1 <= limit <= 256 && of_another(t, cursor.binding) ==> refused(r, ErrorCode::Conflict)
            && after == t && next == cursor,
        1 <= limit <= 256 && !of_another(t, cursor.binding) ==> next.binding == Some(t.store_id),
        1 <= limit <= 256 && !of_another(t, cursor.binding) && !acceptance::timely(t, work_clock)
            ==> refused(r, ErrorCode::ClockUnsafe) && after == t,
        r matches Ok(p) ==> {
            &&& p.inspected_work <= limit
            &&& p.settled_work <= p.inspected_work
            &&& p.inspected_work < limit ==> next.work_before is None
            &&& p.inspected_work == limit ==> next.work_before is Some
            &&& next.work_before matches Some(b) ==> (cursor.work_before matches Some(c) ==> b < c)
            &&& next.work_before matches Some(b) ==> exists|j: int|
                0 <= j < t.work.len() && (#[trigger] t.work[j]).row == b
        },
{
    let rows = table::latest(t.work, t.visitable(cursor.work_before), limit);
    table::lemma_latest_len(t.work, t.visitable(cursor.work_before), limit);
    let now = work_clock.utc_ms;
    if r is Ok {
        let (passed, settled) = choose|passed: Tables, settled: nat|
            {
                &&& #[trigger] t.work_passed(rows, now, settled, passed)
                &&& passed.scopes_reconciled(
                    Cursor {
                        work_before: if rows.len() < limit {
                            None
                        } else {
                            Some(t.work[rows.last()].row)
                        },
                        ..(Cursor { binding: Some(t.store_id), ..cursor })
                    },
                    limit,
                    scope_clock,
                    rows.len(),
                    settled,
                    r,
                    after,
                    next,
                )
            };
        let mid = choose|mid: Tables|
            {
                &&& #[trigger] t.settle_pass(rows, now, mid, settled)
                &&& passed == if settled > 0 {
                    Tables { greatest: now.0, ..mid }
                } else {
                    mid
                }
            };
        lemma_settled(t, rows, now, mid, settled);
        if rows.len() == limit {
            let j = rows[rows.len() - 1];
            assert(t.visitable(cursor.work_before)(t.work[j]));
        }
    }
}

/// A round of retirement looks at one session and takes away at most two hundred and fifty-six rows of
/// it. It goes down from where the last one stopped, and starts over once no session is left.
pub proof fn law_retirement_goes_round(
    t: Tables,
    cursor: RetirementCursor,
    limit: nat,
    clock: ClockReading,
    steps: Seq<ClockReading>,
    gone: Seq<PayloadStatus>,
    audit: Option<Fault>,
    r: Result<RetirementProgress, StoreError>,
    after: Tables,
    next: RetirementCursor,
)
    requires
        t.retired(cursor, limit, clock, steps, gone, audit, r, after, next),
        limit <= steps.len(),
    ensures
        !(1 <= limit <= 256) ==> refused(r, ErrorCode::LimitExceeded) && after == t && next
            == cursor,
        1 <= limit <= 256 && of_another(t, cursor.binding) ==> refused(r, ErrorCode::Conflict)
            && after == t && next == cursor,
        1 <= limit <= 256 && !of_another(t, cursor.binding) ==> next.binding == Some(t.store_id),
        1 <= limit <= 256 && !of_another(t, cursor.binding) && !acceptance::timely(t, clock)
            ==> refused(r, ErrorCode::ClockUnsafe) && after == t,
        r is Err && 1 <= limit <= 256 && !of_another(t, cursor.binding) ==> next.before
            == cursor.before,
        r matches Ok(p) ==> {
            &&& p.deleted_work + p.deleted_scopes + p.deleted_operations <= limit
            &&& p.started ==> p.deleted_work + p.deleted_scopes + p.deleted_operations == 0
                && !p.completed
            &&& match p.inspected_session {
                Some(generation) => next.before == Some(generation.0) && (
                cursor.before matches Some(b) ==> generation.0 < b),
                None => next.before is None && after == t && !p.started && !p.completed,
            }
        },
{
    lemma_newest(t.sessions, cursor.before);
    let s = retirement::newest_session(t.sessions, cursor.before);
    lemma_deleted(t, t.sessions[s].binding.identity.generation, steps.take(limit as int), gone);
}

proof fn lemma_newest(s: Seq<super::store::SessionRow>, before: Option<u64>)
    ensures
        retirement::newest_session(s, before) < s.len(),
        retirement::newest_session(s, before) >= 0 ==> (before matches Some(b)
            ==> s[retirement::newest_session(s, before)].binding.identity.generation.0 < b),
    decreases s.len(),
{
    if s.len() > 0 {
        lemma_newest(s.drop_last(), before);
    }
}

proof fn lemma_deleted(t: Tables, generation: Id, clocks: Seq<ClockReading>, gone: Seq<PayloadStatus>)
    ensures
        ({
            let run = t.retire_run(generation, clocks, gone);
            run.work + run.scopes + run.operations <= clocks.len()
        }),
    decreases clocks.len(),
{
    if clocks.len() > 0 {
        lemma_deleted(t, generation, clocks.drop_last(), gone);
    }
}

proof fn lemma_reclaimed(
    t: Tables,
    before: Option<u64>,
    clocks: Seq<ClockReading>,
    gone: Seq<PayloadStatus>,
)
    ensures
        ({
            let run = t.reclaim_run(before, clocks, gone);
            &&& run.inspected <= clocks.len()
            &&& run.intents <= run.inspected
            &&& run.inputs <= run.inspected
            &&& run.outputs <= run.inspected
            &&& run.done ==> run.before is None && run.fault is None
        }),
    decreases clocks.len(),
{
    if clocks.len() > 0 {
        lemma_reclaimed(t, before, clocks.drop_last(), gone);
    }
}

/// A round of reclaiming looks at one to two hundred and fifty-six jobs and counts what it did with
/// each.
pub proof fn law_reclaiming_goes_round(
    t: Tables,
    cursor: RetentionCursor,
    limit: nat,
    clocks: Seq<ClockReading>,
    gone: Seq<PayloadStatus>,
    r: Result<RetentionProgress, StoreError>,
    after: Tables,
    next: RetentionCursor,
)
    requires
        t.reclaimed(cursor, limit, clocks, gone, r, after, next),
        limit <= clocks.len(),
    ensures
        !(1 <= limit <= 256) ==> refused(r, ErrorCode::LimitExceeded) && after == t && next
            == cursor,
        1 <= limit <= 256 && of_another(t, cursor.binding) ==> refused(r, ErrorCode::Conflict)
            && after == t && next == cursor,
        1 <= limit <= 256 && !of_another(t, cursor.binding) ==> next.binding == Some(t.store_id),
        next.payload_after == cursor.payload_after && next.payload_through
            == cursor.payload_through,
        r matches Ok(p) ==> {
            &&& p.inspected_jobs <= limit
            &&& p.committed_intents <= p.inspected_jobs
            &&& p.released_inputs <= p.inspected_jobs
            &&& p.released_outputs <= p.inspected_jobs
        },
        (forall|j: int|
            #![trigger t.work[j]]
            0 <= j < t.work.len() ==> t.work[j].job is None) && 1 <= limit <= 256 && !of_another(
            t,
            cursor.binding,
        ) && acceptance::timely(t, clocks[0]) ==> r is Ok && after == t && next.before is None,
{
    lemma_reclaimed(t, cursor.before, clocks.take(limit as int), gone);
    if (forall|j: int| #![trigger t.work[j]] 0 <= j < t.work.len() ==> t.work[j].job is None) && 1
        <= limit <= 256 && acceptance::timely(t, clocks[0]) {
        lemma_nothing_to_reclaim(t, cursor.before, clocks.take(limit as int), gone);
    }
}

proof fn lemma_nothing_to_reclaim(
    t: Tables,
    before: Option<u64>,
    clocks: Seq<ClockReading>,
    gone: Seq<PayloadStatus>,
)
    requires
        clocks.len() > 0,
        forall|j: int| #![trigger t.work[j]] 0 <= j < t.work.len() ==> t.work[j].job is None,
        acceptance::timely(t, clocks[0]),
    ensures
        ({
            let run = t.reclaim_run(before, clocks, gone);
            run.tables == t && run.done && run.fault is None && run.before is None
        }),
    decreases clocks.len(),
{
    let rest = clocks.drop_last();
    if rest.len() > 0 {
        assert(rest[0] == clocks[0]);
        lemma_nothing_to_reclaim(t, before, rest, gone);
    } else {
        let run = t.reclaim_run(before, rest, gone);
        assert(run.tables == t && run.before == before && !run.done && run.fault is None);
        assert(clocks.last() == clocks[0]);
        table::lemma_latest_len(t.work, t.reclaimable(before), 1);
        let rows = table::latest(t.work, t.reclaimable(before), 1);
        if rows.len() > 0 {
            assert(t.reclaimable(before)(t.work[rows[0]]));
            assert(t.work[rows[0]].job is None);
        }
        reveal(Tables::reclaim_step);
        assert(t.reclaim_step(before, clocks[0], gone) == Ok::<
            (Tables, Option<retention::Reclaimed>),
            Fault,
        >((t, None)));
    }
}

/// Rounds of reclaiming join: one that goes on where another stopped leaves what one round of both
/// lengths leaves, and both together count what that counts.
pub proof fn law_rounds_of_reclaiming_join(
    t: Tables,
    before: Option<u64>,
    first: Seq<ClockReading>,
    second: Seq<ClockReading>,
    gone: Seq<PayloadStatus>,
)
    requires
        !t.reclaim_run(before, first, gone).done,
        t.reclaim_run(before, first, gone).fault is None,
    ensures
        ({
            let one = t.reclaim_run(before, first, gone);
            let two = one.tables.reclaim_run(one.before, second, gone);
            let both = t.reclaim_run(before, first + second, gone);
            &&& both.tables == two.tables
            &&& both.before == two.before
            &&& both.done == two.done
            &&& both.fault == two.fault
            &&& both.inspected == one.inspected + two.inspected
            &&& both.intents == one.intents + two.intents
            &&& both.inputs == one.inputs + two.inputs
            &&& both.outputs == one.outputs + two.outputs
        }),
    decreases second.len(),
{
    if second.len() == 0 {
        assert(first + second =~= first);
    } else {
        law_rounds_of_reclaiming_join(t, before, first, second.drop_last(), gone);
        assert((first + second).drop_last() =~= first + second.drop_last());
        assert((first + second).last() == second.last());
    }
}

/// The end of a pass over the files is fixed when it begins. A full batch goes on behind the last file
/// that was looked at, and one that was not full ends the pass, so that the next begins anew.
pub proof fn law_file_pass_ends_where_it_was_fixed(
    cursor: RetentionCursor,
    last: Option<String>,
    later: Option<String>,
    inspected: usize,
    limit: usize,
    next: Option<String>,
)
    requires
        last is Some,
    ensures
        ({
            let begun = cursor.with_files(last);
            let on = begun.behind_files(inspected, limit, next);
            &&& begun.payload_through is Some
            &&& cursor.payload_through is None ==> begun.payload_through == last
            &&& begun.with_files(later) == begun
            &&& begun.payload_after == cursor.payload_after
            &&& begun.before == cursor.before && begun.binding == cursor.binding
            &&& on.before == cursor.before && on.binding == cursor.binding
            &&& if inspected < limit {
                on.payload_after is None && on.with_files(later).payload_through == later
            } else {
                on.payload_after == next && on.with_files(later).payload_through
                    == begun.payload_through
            }
        }),
{
}

proof fn lemma_report(
    before: Reads,
    t: Tables,
    cursor: ReadCursor,
    n: nat,
    now: u64,
    statuses: Seq<ReadStatus>,
    after: Reads,
    next: ReadCursor,
    report: ReadMaintenance,
)
    requires
        before.passed(t, cursor, n, now, statuses, after, next, report),
    ensures
        report.inspected <= n,
        report.closed + report.busy <= report.inspected,
        after.last == before.last,
        after.rows.len() == before.rows.len(),
    decreases n,
{
    let through = before.bound(cursor);
    if n > 0 && !before.none_left(cursor.after, through) {
        let i = choose|i: int|
            {
                let (mid, busy, closed) = before.maintained(t, i, now, statuses);
                &&& #[trigger] before.next(cursor.after, before.bound(cursor), i)
                &&& report.inspected > 0
                &&& busy ==> report.busy > 0
                &&& closed ==> report.closed > 0
                &&& mid.passed(
                    t,
                    ReadCursor { after: before.rows[i].id, through: Some(through) },
                    (n - 1) as nat,
                    now,
                    statuses,
                    after,
                    next,
                    ReadMaintenance {
                        inspected: (report.inspected - 1) as usize,
                        closed: if closed {
                            (report.closed - 1) as usize
                        } else {
                            report.closed
                        },
                        busy: if busy {
                            (report.busy - 1) as usize
                        } else {
                            report.busy
                        },
                    },
                )
            };
        let (mid, busy, closed) = before.maintained(t, i, now, statuses);
        lemma_report(
            mid,
            t,
            ReadCursor { after: before.rows[i].id, through: Some(through) },
            (n - 1) as nat,
            now,
            statuses,
            after,
            next,
            ReadMaintenance {
                inspected: (report.inspected - 1) as usize,
                closed: if closed {
                    (report.closed - 1) as usize
                } else {
                    report.closed
                },
                busy: if busy {
                    (report.busy - 1) as usize
                } else {
                    report.busy
                },
            },
        );
    }
}

/// A round of maintenance looks at one to two hundred and fifty-six deliveries; each is busy, closed or
/// left as it is, and none is counted twice.
pub proof fn law_maintenance_goes_round(
    before: Reads,
    t: Tables,
    cursor: ReadCursor,
    limit: usize,
    now: u64,
    statuses: Seq<ReadStatus>,
    r: Result<ReadMaintenance, StoreError>,
    after: Reads,
    next: ReadCursor,
)
    requires
        before.maintenance_decided(t, cursor, limit, now, statuses, r, after, next),
    ensures
        r is Ok <==> 1 <= limit <= 256,
        !(1 <= limit <= 256) ==> refused(r, ErrorCode::LimitExceeded) && after == before && next
            == cursor,
        r matches Ok(report) ==> report.inspected <= limit && report.closed + report.busy
            <= report.inspected && after.last == before.last && after.rows.len()
            == before.rows.len(),
{
    if 1 <= limit <= 256 {
        lemma_report(before, t, cursor, limit as nat, now, statuses, after, next, r->Ok_0);
    }
}

/// An owner who may look is told the number behind the last one that they used, and nobody else is.
pub proof fn law_offered_number_is_next(
    t: Tables,
    owner: Seq<char>,
    grants: Grants,
    r: Result<Id, StoreError>,
    n: u64,
)
    requires
        acceptance::used_up_to(t, owner, n),
        sessions::creation_offered(t, owner, grants, r),
    ensures
        !grants.inspect ==> refused(r, ErrorCode::Unauthorized),
        grants.inspect && n < MAX_NUMBER ==> (r matches Ok(id) && id.0 == n + 1),
        grants.inspect && n >= MAX_NUMBER ==> r is Err,
{
    acceptance::lemma_used_up_to(t, owner, n);
}

} // verus!
