//! How a delivery goes: when it begins, while it may go on, which step follows which, and what ends it.

use super::super::commitments::SessionIdentity;
use super::super::error::{ErrorCode, MAX_NUMBER};
use super::super::negotiation::Capabilities;
use super::super::records::ResultHeader;
use super::results::{
    self, Lease, ReadCursor, ReadMaintenance, ReadRow, ReadStatus, Reads, Request, ResultRead,
};
use super::store::{Access, ClockReading, Fault, Grants, Permission, StoreError, Tables};
use super::table;
use vstd::prelude::*;

verus! {

/// The delivery has neither outlived its time nor been silent for too long.
pub open spec fn in_time(lease: Lease, now: u64) -> bool {
    &&& now < lease.created + lease.lifetime.0 * 1_000_000
    &&& now < lease.progress + lease.idle.0 * 1_000_000
}

/// The clock has not gone back behind what the delivery has seen.
pub open spec fn ahead(lease: Lease, now: u64) -> bool {
    lease.observed <= now && lease.created <= now && lease.progress <= now
}

/// The delivery is over, for the reason that ended it first, and nothing more can be read from it.
pub open spec fn ended(before: ReadRow, after: ReadRow, code: ErrorCode) -> bool {
    &&& after.id == before.id
    &&& !after.registered
    &&& !after.lease.open
    &&& after.lease.pending_bytes == 0
    &&& after.lease.closed == Some(
        match before.lease.closed {
            Some(first) => first,
            None => code,
        },
    )
    &&& after.lease.header == before.lease.header
    &&& after.lease.identity == before.lease.identity
}

/// A delivery goes on while it is not closed, its reader may read, the clock has not gone back, and it
/// is in time. To be out of time ends it, and so does a clock that went back.
pub proof fn law_delivery_goes_on_in_time(t: Tables, lease: Lease, now: u64, grants: Grants)
    ensures
        t.lease_fault(lease, now, grants) is None <==> {
            &&& lease.closed is None
            &&& t.session_fault(lease.identity, grants, Permission::ReadResult) is None
            &&& ahead(lease, now)
            &&& in_time(lease, now)
        },
        lease.closed is None && t.session_fault(
            lease.identity,
            grants,
            Permission::ReadResult,
        ) is None && !ahead(lease, now) ==> t.lease_fault(lease, now, grants) == Some(
            Fault::Refused(ErrorCode::ClockUnsafe),
        ),
        lease.closed is None && t.session_fault(
            lease.identity,
            grants,
            Permission::ReadResult,
        ) is None && ahead(lease, now) && !in_time(lease, now) ==> t.lease_fault(lease, now, grants)
            == Some(Fault::Refused(ErrorCode::LimitExceeded)),
        lease.closed matches Some(code) ==> t.lease_fault(lease, now, grants) == Some(
            Fault::Refused(code),
        ),
{
}

/// Which step may be taken in a delivery that goes on, and what it does. It is started once; a chunk is
/// read only after that, while the object is open and nothing of the last chunk is left to send; no
/// more is sent than was read; and it is finished only once its end was read and all of it was sent.
/// Whatever is asked out of turn ends it.
pub proof fn law_delivery_keeps_its_order(
    t: Tables,
    row: ReadRow,
    request: Request,
    now: u64,
    grants: Grants,
)
    requires
        t.lease_fault(row.lease, now, grants) is None,
    ensures
        ({
            let (after, fault) = results::answered(t, row, request, now, grants);
            let lease = row.lease;
            let allowed = match request {
                Request::Start => !lease.started,
                Request::Check => true,
                Request::Chunk => lease.started && lease.open && lease.pending_bytes == 0,
                Request::Sent(count) => lease.started && count <= lease.pending_bytes,
                Request::Finish => lease.started && lease.eof && lease.pending_bytes == 0,
            };
            &&& fault is None <==> allowed
            &&& fault matches Some(f) ==> f == Fault::Refused(
                match request {
                    Request::Start | Request::Check | Request::Chunk => ErrorCode::Conflict,
                    Request::Sent(_) | Request::Finish => ErrorCode::IntegrityError,
                },
            ) && ended(row, after, f->Refused_0)
            &&& fault is None ==> {
                &&& after.id == row.id
                &&& after.lease.observed == now
                &&& after.lease.created == lease.created
                &&& after.lease.header == lease.header
                &&& after.lease.identity == lease.identity
                &&& after.lease.eof == lease.eof
                &&& after.registered == row.registered
                &&& after.lease.started == (lease.started || request is Start)
                &&& match request {
                    Request::Sent(count) => {
                        &&& after.lease.pending_bytes == lease.pending_bytes - count
                        &&& after.lease.progress == if count == 0 {
                            lease.progress
                        } else {
                            now
                        }
                        &&& after.lease.closed is None
                        &&& after.lease.open == lease.open
                    },
                    Request::Finish => {
                        &&& after.lease.closed == Some(ErrorCode::AlreadyTerminal)
                        &&& !after.lease.open
                        &&& after.lease.pending_bytes == 0
                    },
                    _ => {
                        &&& after.lease.pending_bytes == lease.pending_bytes
                        &&& after.lease.progress == lease.progress
                        &&& after.lease.closed is None
                        &&& after.lease.open == lease.open
                    },
                }
            }
        }),
{
}

/// A delivery that may not go on is ended by whatever is asked of it.
pub proof fn law_late_delivery_is_ended(
    t: Tables,
    row: ReadRow,
    request: Request,
    now: u64,
    grants: Grants,
)
    requires
        t.lease_fault(row.lease, now, grants) is Some,
    ensures
        ({
            let (after, fault) = results::answered(t, row, request, now, grants);
            &&& fault == t.lease_fault(row.lease, now, grants)
            &&& fault matches Some(Fault::Refused(code)) ==> ended(row, after, code)
            &&& fault matches Some(Fault::Corrupt) ==> ended(row, after, ErrorCode::InternalError)
        }),
{
}

/// A chunk is what is left to send of it; an empty one is the end of the object.
pub proof fn law_chunk_is_left_to_send(
    before: Reads,
    read: ResultRead,
    count: usize,
    after: Reads,
    i: int,
)
    requires
        before.well_formed(),
        before.has(read.id, i),
        results::chunk_taken(before, read, count, after),
    ensures
        after.rows.len() == before.rows.len(),
        after.rows[i].lease.pending_bytes == count,
        after.rows[i].lease.eof <==> count == 0,
        after.rows[i].lease.open == before.rows[i].lease.open,
        after.rows[i].lease.closed == before.rows[i].lease.closed,
        after.rows[i].lease.progress == before.rows[i].lease.progress,
        forall|j: int|
            0 <= j < before.rows.len() && j != i ==> #[trigger] after.rows[j] == before.rows[j],
{
    let k = choose|k: int|
        #[trigger] before.has(read.id, k) && after == (Reads {
            rows: before.rows.update(
                k,
                (ReadRow {
                    lease: Lease { pending_bytes: count, eof: count == 0, ..before.rows[k].lease },
                    ..before.rows[k]
                }),
            ),
            ..before
        });
    if k < i {
        assert(before.rows[k].id < before.rows[i].id);
    } else if i < k {
        assert(before.rows[i].id < before.rows[k].id);
    }
}

/// A delivery begins only where the read was granted, before and after the object was opened, and it was
/// opened. `plan` is why the read is refused, if it is, and `header` what it is announced by. It begins
/// under a number of its own, with the times of the connection, and with nothing sent. A refused one
/// leaves nothing behind.
pub proof fn law_delivery_begins_where_granted(
    t: Tables,
    before: Reads,
    identity: SessionIdentity,
    plan: Option<Fault>,
    header: ResultHeader,
    caps: Capabilities,
    access: Access,
    clock: ClockReading,
    opening: Option<Fault>,
    now: u64,
    r: Result<ResultRead, StoreError>,
    then: Tables,
    after: Reads,
)
    requires
        before.well_formed(),
        after.well_formed(),
        results::begun_by(
            t,
            before,
            identity,
            plan,
            header,
            caps,
            access,
            clock,
            opening,
            now,
            r,
            then,
            after,
        ),
    ensures
        r is Ok <==> plan is None && opening is None && access.after.read_result && before.last
            < MAX_NUMBER,
        r is Err ==> after == before,
        r matches Ok(read) ==> {
            let row = after.rows.last();
            &&& after.rows.len() == before.rows.len() + 1
            &&& after.rows.drop_last() == before.rows
            &&& row.id == read.id
            &&& forall|i: int| 0 <= i < before.rows.len() ==> (#[trigger] before.rows[i]).id != read.id
            &&& row.registered
            &&& row.lease.header == header
            &&& row.lease.open
            &&& !row.lease.started
            &&& !row.lease.eof
            &&& row.lease.closed is None
            &&& row.lease.pending_bytes == 0
            &&& row.lease.created == now
            &&& row.lease.idle == caps.stream_idle_ms
            &&& row.lease.lifetime == caps.stream_lifetime_ms
            &&& ahead(row.lease, now)
            &&& then.greatest == clock.utc_ms.0
            &&& then.work == t.work
        },
{
    if r is Ok {
        assert(after.rows.drop_last() =~= before.rows);
    }
}

/// Maintenance leaves alone what is in use or what nothing is known of, and closes exactly those others
/// that may not go on. The time that it judges by is never behind what the delivery has seen.
pub proof fn law_maintenance_closes_what_may_not_go_on(
    before: Reads,
    t: Tables,
    i: int,
    s: int,
    now: u64,
    statuses: Seq<ReadStatus>,
)
    requires
        0 <= i < before.rows.len(),
        0 <= s <= statuses.len(),
        forall|j: int| 0 <= j < s ==> (#[trigger] statuses[j]).id != before.rows[i].id,
        s < statuses.len() ==> statuses[s].id == before.rows[i].id,
    ensures
        ({
            let (after, busy, closed) = before.maintained(t, i, now, statuses);
            let row = before.rows[i];
            let at = if now < row.lease.observed {
                row.lease.observed
            } else {
                now
            };
            &&& busy <==> s == statuses.len() || statuses[s].busy
            &&& closed <==> !busy && t.lease_fault(row.lease, at, statuses[s].grants) is Some
            &&& !closed ==> after == before
            &&& closed ==> {
                &&& after.last == before.last
                &&& after.rows.len() == before.rows.len()
                &&& !after.rows[i].registered
                &&& !after.rows[i].lease.open
                &&& after.rows[i].lease.closed is Some
                &&& forall|j: int|
                    0 <= j < before.rows.len() && j != i ==> #[trigger] after.rows[j]
                        == before.rows[j]
            }
        }),
{
    let p = results::is_read_status(before.rows[i].id);
    assert forall|j: int| 0 <= j < s implies !p(#[trigger] statuses[j]) by {}
    table::lemma_index_unique(statuses, p, s);
}

/// A pass of maintenance goes up from where it stands to where its first step fixed its end, and looks
/// at the first registered delivery that it has not looked at; with none left it starts over.
pub proof fn law_maintenance_goes_up(
    before: Reads,
    t: Tables,
    cursor: ReadCursor,
    n: nat,
    now: u64,
    statuses: Seq<ReadStatus>,
    after: Reads,
    next: ReadCursor,
    report: ReadMaintenance,
)
    requires
        before.well_formed(),
        n > 0,
        before.passed(t, cursor, n, now, statuses, after, next, report),
    ensures
        ({
            let through = match cursor.through {
                Some(fixed) => fixed,
                None => before.last,
            };
            let left = exists|i: int|
                0 <= i < before.rows.len() && (#[trigger] before.rows[i]).registered && cursor.after
                    < before.rows[i].id <= through;
            if !left {
                after == before && next.after == 0 && next.through is None && report.inspected == 0
                    && report.closed == 0 && report.busy == 0
            } else {
                report.inspected > 0
            }
        }),
{
    let through = before.bound(cursor);
    if before.none_left(cursor.after, through) {
        assert forall|i: int| 0 <= i < before.rows.len() implies !((
        #[trigger] before.rows[i]).registered && cursor.after < before.rows[i].id <= through) by {
            assert(!before.candidate(cursor.after, through, i));
        }
    } else {
        let j = choose|j: int|
            0 <= j < before.rows.len() && #[trigger] before.candidate(cursor.after, through, j);
        assert(before.rows[j].registered);
    }
}

} // verus!
