//! Retained result delivery, independent of application execution. The endpoint
//! owns connection correlation and must drive bounded maintenance when peers
//! stop sending progress. No result request creates or retries a work attempt.
//!
//! Times are nanoseconds of one monotonic clock. What the payload store does (opening a retained
//! output, reading a chunk of it) is an argument.

use super::super::commitments::SessionIdentity;
use super::super::error::{ErrorCode, MAX_HEADER, MAX_NUMBER, RESULT_DELIVERY};
use super::super::messages::{Control, ResultMessage};
use super::super::negotiation::Capabilities;
use super::super::numbers::{Id, IdleMs, LifetimeMs, Literal};
use super::super::records::{Manifest, ResultHeader, WorkKey};
use super::super::transfer;
use super::super::wire::Wire;
use super::accounts;
use super::sessions::{self, check_connection, selected};
use super::store::{
    authorize, increment, protocol, Access, AuthorityStore, ClockReading, Fault, Grants,
    Permission, StoreError, Tables,
};
use crate::cbor;
use vstd::prelude::*;

verus! {

/// One delivery of a retained output.
pub struct Lease {
    pub identity: SessionIdentity,
    pub header: ResultHeader,
    /// The pinned output can still be read.
    pub open: bool,
    pub created: u64,
    pub observed: u64,
    pub progress: u64,
    pub idle: IdleMs,
    pub lifetime: LifetimeMs,
    pub started: bool,
    pub pending_bytes: usize,
    pub eof: bool,
    pub closed: Option<ErrorCode>,
}

/// A delivery and its number. One that was closed stays until its holder lets go of it.
pub struct ReadRow {
    pub id: u64,
    pub lease: Lease,
    pub registered: bool,
}

/// An opaque connection-local transfer. Letting go of it aborts delivery only.
#[derive(Debug, Clone, Copy, PartialEq, Eq)]
pub struct ResultRead {
    pub id: u64,
}

/// Where a maintenance pass goes on.
#[derive(Debug, Clone, Copy, PartialEq, Eq)]
pub struct ReadCursor {
    pub after: u64,
    pub through: Option<u64>,
}

impl Default for ReadCursor {
    fn default() -> (r: Self)
        ensures
            r == (ReadCursor { after: 0, through: None }),
    {
        ReadCursor { after: 0, through: None }
    }
}

#[derive(Debug, Clone, Copy, PartialEq, Eq)]
pub struct ReadMaintenance {
    pub inspected: usize,
    pub closed: usize,
    pub busy: usize,
}

/// What is known of a delivery from outside: whether it is in use at this moment, and what its
/// owner may do.
#[derive(Debug, Clone, Copy, PartialEq, Eq)]
pub struct ReadStatus {
    pub id: u64,
    pub busy: bool,
    pub grants: Grants,
}

/// What an access to the payload store came to.
#[derive(Debug, Clone, Copy, PartialEq, Eq)]
pub enum Storage<T> {
    Done(T),
    /// The device failed.
    Io,
    Failed(StoreError),
}

impl<T> Storage<T> {
    /// A failing device makes the output unavailable; other failures are passed on.
    pub open spec fn fault(self) -> Option<Fault> {
        match self {
            Storage::Done(_) => None,
            Storage::Io => Some(Fault::Refused(ErrorCode::OutputUnavailable)),
            Storage::Failed(e) => Some(e.fault()),
        }
    }
}

/// Why a request failed, if it did.
pub open spec fn failure<T>(r: Result<T, StoreError>) -> Option<Fault> {
    match r {
        Ok(_) => None,
        Err(e) => Some(e.fault()),
    }
}

/// The code that a failure is reported with.
pub open spec fn fault_code(fault: Fault) -> ErrorCode {
    match fault {
        Fault::Refused(code) => code,
        Fault::Corrupt => ErrorCode::InternalError,
    }
}

fn error_code(error: &StoreError) -> (r: ErrorCode)
    ensures
        r == fault_code(error.fault()),
{
    match error {
        StoreError::Protocol(error) => error.code,
        StoreError::Corrupt(_) => ErrorCode::InternalError,
    }
}

fn storage_read_error<T>(outcome: Storage<T>) -> (r: Result<T, StoreError>)
    ensures
        match r {
            Ok(v) => outcome == Storage::Done(v),
            Err(e) => outcome.fault() == Some(e.fault()),
        },
{
    match outcome {
        Storage::Done(v) => Ok(v),
        Storage::Io => Err(protocol(ErrorCode::OutputUnavailable, "retained output I/O failed")),
        Storage::Failed(e) => Err(e),
    }
}

pub open spec fn results_fault(caps: Capabilities) -> Option<Fault> {
    if sessions::selection_fault(caps) is Some {
        sessions::selection_fault(caps)
    } else if !caps.supports(RESULT_DELIVERY) {
        Some(Fault::Refused(ErrorCode::ExtensionUnsupported))
    } else {
        None
    }
}

fn selected_results(caps: &Capabilities) -> (r: Result<(), StoreError>)
    ensures
        match r {
            Ok(_) => results_fault(*caps) is None,
            Err(e) => results_fault(*caps) == Some(e.fault()),
        },
{
    selected(caps)?;
    if !caps.has(RESULT_DELIVERY) {
        return Err(protocol(ErrorCode::ExtensionUnsupported, "result delivery not selected"));
    }
    Ok(())
}

impl Tables {
    /// Why no manifest is handed out, if none is.
    pub open spec fn manifest_fault(
        self,
        identity: SessionIdentity,
        key: WorkKey,
        attempt: Id,
        caps: Capabilities,
        grants: Grants,
    ) -> Option<Fault> {
        let session = self.sessions[self.session_at(identity.generation)];
        let found = self.work_of(identity.generation, key);
        let view = self.work[found->Ok_0].view;
        let manifest = view.manifest->0;
        if results_fault(caps) is Some {
            results_fault(caps)
        } else if self.session_fault(identity, grants, Permission::ReadResult) is Some {
            self.session_fault(identity, grants, Permission::ReadResult)
        } else if sessions::connection_fault(session, caps) is Some {
            sessions::connection_fault(session, caps)
        } else if !(key.valid() && attempt.valid()) {
            Some(Fault::Refused(ErrorCode::FrameError))
        } else if found is Err {
            Some(found->Err_0)
        } else if !(view.valid() && (view.state.0 == super::super::numbers::State::SUCCEEDED ==> (
        view.manifest is Some) == session.binding.results)) {
            Some(Fault::Refused(ErrorCode::FrameError))
        } else if view.attempt.0 != attempt.0 {
            Some(Fault::Refused(ErrorCode::NotFound))
        } else if view.manifest is None {
            Some(Fault::Refused(ErrorCode::NotReady))
        } else if !(manifest.authority.0@ == identity.authority.0@ && manifest.owner.0@
            == identity.owner.0@ && manifest.generation == identity.generation) {
            Some(Fault::Corrupt)
        } else {
            None
        }
    }

    /// The manifest that the work published.
    pub open spec fn published(self, generation: Id, key: WorkKey) -> Manifest {
        self.work[self.work_of(generation, key)->Ok_0].view.manifest->0
    }

    /// Why a retained output is not delivered, if it is not, up to its opening.
    pub open spec fn read_fault(
        self,
        identity: SessionIdentity,
        request: ResultMessage,
        caps: Capabilities,
        grants: Grants,
        clock: ClockReading,
    ) -> Option<Fault> {
        if results_fault(caps) is Some {
            results_fault(caps)
        } else {
            match request {
                ResultMessage::Read { request: number, work, attempt, index, expected_sha256 } => {
                    let generation = identity.generation;
                    let manifest = self.published(generation, work);
                    let output = manifest.outputs@[index.0 as int];
                    let job = self.work[self.work_of(generation, work)->Ok_0].job;
                    if !request.valid() {
                        Some(Fault::Refused(ErrorCode::FrameError))
                    } else if self.manifest_fault(identity, work, attempt, caps, grants) is Some {
                        self.manifest_fault(identity, work, attempt, caps, grants)
                    } else if index.0 >= manifest.outputs@.len() {
                        Some(Fault::Refused(ErrorCode::NotFound))
                    } else if output.sha256.0@ != expected_sha256.0@ {
                        Some(Fault::Refused(ErrorCode::IntegrityError))
                    } else if !self.safe(clock) {
                        Some(Fault::Refused(ErrorCode::ClockUnsafe))
                    } else if clock.utc_ms.0 >= manifest.available_until.0 {
                        Some(Fault::Refused(ErrorCode::Expired))
                    } else if output.length.0 > caps.object_limit.0 {
                        Some(Fault::Refused(ErrorCode::LimitExceeded))
                    } else if job is None {
                        Some(Fault::Corrupt)
                    } else if !job->0.outputs_live {
                        Some(Fault::Refused(ErrorCode::OutputUnavailable))
                    } else if !self.read_header(identity, request).valid() {
                        Some(Fault::Refused(ErrorCode::FrameError))
                    } else {
                        None
                    }
                },
                _ => Some(Fault::Refused(ErrorCode::FrameError)),
            }
        }
    }

    /// The header that announces the delivery.
    pub open spec fn read_header(self, identity: SessionIdentity, request: ResultMessage) -> ResultHeader {
        let output = self.published(
            identity.generation,
            request->Read_work,
        ).outputs@[request->Read_index.0 as int];
        ResultHeader {
            kind: Literal,
            request: request->Read_request,
            generation: identity.generation,
            work: request->Read_work,
            attempt: request->Read_attempt,
            index: request->Read_index,
            length: output.length,
            sha256: output.sha256,
        }
    }

    /// Why a delivery cannot go on, if it cannot.
    pub open spec fn lease_fault(self, lease: Lease, now: u64, grants: Grants) -> Option<Fault> {
        if lease.closed is Some {
            Some(Fault::Refused(lease.closed->0))
        } else if self.session_fault(lease.identity, grants, Permission::ReadResult) is Some {
            self.session_fault(lease.identity, grants, Permission::ReadResult)
        } else if now < lease.observed || now < lease.created || now < lease.progress {
            Some(Fault::Refused(ErrorCode::ClockUnsafe))
        } else if now - lease.created >= transfer::nanoseconds(lease.lifetime.0) || now
            - lease.progress >= transfer::nanoseconds(lease.idle.0) {
            Some(Fault::Refused(ErrorCode::LimitExceeded))
        } else {
            None
        }
    }
}

/// A delivery that is over. The first reason stays.
pub open spec fn closed_lease(lease: Lease, reason: ErrorCode) -> Lease {
    Lease {
        closed: if lease.closed is Some {
            lease.closed
        } else {
            Some(reason)
        },
        open: false,
        pending_bytes: 0,
        ..lease
    }
}

/// A row whose delivery failed.
pub open spec fn failed_row(row: ReadRow, fault: Fault) -> ReadRow {
    ReadRow { lease: closed_lease(row.lease, fault_code(fault)), registered: false, ..row }
}

/// What is asked of a delivery.
pub enum Request {
    Start,
    Check,
    Chunk,
    Sent(usize),
    Finish,
}

/// What a request does to a delivery that may go on.
pub open spec fn served(lease: Lease, request: Request, now: u64) -> Result<Lease, Fault> {
    match request {
        Request::Start => if lease.started {
            Err(Fault::Refused(ErrorCode::Conflict))
        } else {
            Ok(Lease { started: true, ..lease })
        },
        Request::Check => Ok(lease),
        Request::Chunk => if !lease.started || lease.pending_bytes != 0 || !lease.open {
            Err(Fault::Refused(ErrorCode::Conflict))
        } else {
            Ok(lease)
        },
        Request::Sent(count) => if !lease.started || count > lease.pending_bytes {
            Err(Fault::Refused(ErrorCode::IntegrityError))
        } else {
            Ok(
                Lease {
                    pending_bytes: (lease.pending_bytes - count) as usize,
                    progress: if count != 0 {
                        now
                    } else {
                        lease.progress
                    },
                    ..lease
                },
            )
        },
        Request::Finish => if !lease.started || !lease.eof || lease.pending_bytes != 0 {
            Err(Fault::Refused(ErrorCode::IntegrityError))
        } else {
            Ok(closed_lease(lease, ErrorCode::AlreadyTerminal))
        },
    }
}

/// The row after a request, and why it failed, if it did. Every failure ends the delivery.
pub open spec fn answered(
    t: Tables,
    row: ReadRow,
    request: Request,
    now: u64,
    grants: Grants,
) -> (ReadRow, Option<Fault>) {
    let seen = ReadRow { lease: Lease { observed: now, ..row.lease }, ..row };
    match t.lease_fault(row.lease, now, grants) {
        Some(fault) => (failed_row(row, fault), Some(fault)),
        None => match served(seen.lease, request, now) {
            Err(fault) => (failed_row(seen, fault), Some(fault)),
            Ok(lease) => (ReadRow { lease, ..seen }, None),
        },
    }
}

/// A delivery that has ended stays ended with its first reason, whatever is asked of it.
pub proof fn law_closed_reads_stay_closed(
    t: Tables,
    row: ReadRow,
    request: Request,
    now: u64,
    grants: Grants,
)
    requires
        row.lease.closed is Some,
    ensures
        answered(t, row, request, now, grants).1 == Some(Fault::Refused(row.lease.closed->0)),
        answered(t, row, request, now, grants).0.lease.closed == row.lease.closed,
        !answered(t, row, request, now, grants).0.registered,
{
}

/// Only bytes that the transport took renew the idle time; the lifetime is never renewed.
pub proof fn law_only_sent_bytes_renew_idle_time(
    t: Tables,
    row: ReadRow,
    request: Request,
    now: u64,
    grants: Grants,
)
    ensures
        ({
            let after = answered(t, row, request, now, grants).0.lease;
            &&& after.created == row.lease.created
            &&& after.lifetime == row.lease.lifetime
            &&& after.progress != row.lease.progress ==> (request matches Request::Sent(n) && n > 0
                && after.progress == now)
        }),
{
}

/// What the service knows of its deliveries.
pub struct Reads {
    pub last: u64,
    pub rows: Seq<ReadRow>,
}

impl Reads {
    /// Numbers are given out in order and never twice.
    pub open spec fn well_formed(self) -> bool {
        &&& self.last <= MAX_NUMBER
        &&& forall|i: int, j: int|
            0 <= i < j < self.rows.len() ==> (#[trigger] self.rows[i]).id < (
            #[trigger] self.rows[j]).id
        &&& forall|i: int| 0 <= i < self.rows.len() ==> (#[trigger] self.rows[i]).id <= self.last
    }

    pub open spec fn has(self, id: u64, i: int) -> bool {
        0 <= i < self.rows.len() && self.rows[i].id == id
    }

    /// How many deliveries are registered.
    pub open spec fn pending(self) -> nat
        decreases self.rows.len(),
    {
        if self.rows.len() == 0 {
            0
        } else {
            (Reads { rows: self.rows.drop_last(), ..self }).pending() + if self.rows.last().registered {
                1nat
            } else {
                0nat
            }
        }
    }

    /// The first registered delivery behind a number.
    pub open spec fn next(self, after: u64, through: u64, i: int) -> bool {
        &&& 0 <= i < self.rows.len()
        &&& self.candidate(after, through, i)
        &&& forall|j: int| 0 <= j < i ==> !#[trigger] self.candidate(after, through, j)
    }

    pub open spec fn candidate(self, after: u64, through: u64, i: int) -> bool {
        self.rows[i].registered && after < self.rows[i].id <= through
    }

    pub open spec fn none_left(self, after: u64, through: u64) -> bool {
        forall|j: int| 0 <= j < self.rows.len() ==> !#[trigger] self.candidate(after, through, j)
    }

    /// What maintenance does to the delivery at an index: one in use is left alone, one that may not go
    /// on is closed. A timer reading may be behind the foreground; it never replaces what was observed.
    pub open spec fn maintained(
        self,
        t: Tables,
        i: int,
        now: u64,
        statuses: Seq<ReadStatus>,
    ) -> (Reads, bool, bool) {
        let row = self.rows[i];
        let s = super::table::index_where(statuses, is_read_status(row.id));
        let at = if now < row.lease.observed {
            row.lease.observed
        } else {
            now
        };
        if s >= statuses.len() || statuses[s].busy {
            (self, true, false)
        } else {
            match t.lease_fault(row.lease, at, statuses[s].grants) {
                None => (self, false, false),
                Some(fault) => (
                    Reads { rows: self.rows.update(i, failed_row(row, fault)), ..self },
                    false,
                    true,
                ),
            }
        }
    }

    /// The upper bound of a pass, fixed by its first step.
    pub open spec fn bound(self, cursor: ReadCursor) -> u64 {
        match cursor.through {
            Some(through) => through,
            None => self.last,
        }
    }

    /// A pass of at most `n` steps: what is left of the deliveries, where it goes on and what it did.
    pub open spec fn passed(
        self,
        t: Tables,
        cursor: ReadCursor,
        n: nat,
        now: u64,
        statuses: Seq<ReadStatus>,
        after: Reads,
        next: ReadCursor,
        report: ReadMaintenance,
    ) -> bool
        decreases n,
    {
        let through = self.bound(cursor);
        if n == 0 {
            after == self && next == cursor && report == (ReadMaintenance {
                inspected: 0,
                closed: 0,
                busy: 0,
            })
        } else if self.none_left(cursor.after, through) {
            after == self && next == (ReadCursor { after: 0, through: None }) && report == (
            ReadMaintenance { inspected: 0, closed: 0, busy: 0 })
        } else {
            exists|i: int|
                {
                    let (mid, busy, closed) = self.maintained(t, i, now, statuses);
                    &&& #[trigger] self.next(cursor.after, self.bound(cursor), i)
                    &&& report.inspected > 0
                    &&& busy ==> report.busy > 0
                    &&& closed ==> report.closed > 0
                    &&& mid.passed(
                        t,
                        ReadCursor { after: self.rows[i].id, through: Some(through) },
                        (n - 1) as nat,
                        now,
                        statuses,
                        after,
                        next,
                        ReadMaintenance {
                            inspected: (report.inspected - 1) as usize,
                            closed: if closed {
                                (report.closed - 1) as usize
                            } else {
                                report.closed
                            },
                            busy: if busy {
                                (report.busy - 1) as usize
                            } else {
                                report.busy
                            },
                        },
                    )
                }
        }
    }
}

impl Reads {
    /// What one call of maintenance comes to.
    pub open spec fn maintenance_decided(
        self,
        t: Tables,
        cursor: ReadCursor,
        limit: usize,
        now: u64,
        statuses: Seq<ReadStatus>,
        r: Result<ReadMaintenance, StoreError>,
        after: Reads,
        next: ReadCursor,
    ) -> bool {
        if limit < 1 || limit > 256 {
            r is Err && r->Err_0.fault() == Fault::Refused(ErrorCode::LimitExceeded) && after == self
                && next == cursor
        } else {
            r is Ok && self.passed(t, cursor, limit as nat, now, statuses, after, next, r->Ok_0)
        }
    }
}

pub open spec fn is_read_status(id: u64) -> spec_fn(ReadStatus) -> bool {
    |s: ReadStatus| s.id == id
}

/// Every registered delivery of one service, in the order of their numbers. Deliveries make progress
/// in place, for which the specified maps have no operation, so they are rows of a vector.
pub struct ResultService {
    pub last: u64,
    pub reads: Vec<ReadRow>,
}

impl View for ResultService {
    type V = Reads;

    open spec fn view(&self) -> Reads {
        Reads { last: self.last, rows: self.reads@ }
    }
}

impl Lease {
    fn check(&self, store: &AuthorityStore, now: u64, grants: &Grants) -> (r: Result<(), StoreError>)
        ensures
            match r {
                Ok(_) => store@.lease_fault(*self, now, *grants) is None,
                Err(e) => store@.lease_fault(*self, now, *grants) == Some(e.fault()),
            },
    {
        match self.closed {
            Some(code) => {
                return Err(protocol(code, "result transfer is closed"));
            },
            None => {},
        }
        store.authorize_session(&self.identity, grants, Permission::ReadResult)?;
        if now < self.observed || now < self.created || now < self.progress {
            return Err(protocol(ErrorCode::ClockUnsafe, "result monotonic clock regressed"));
        }
        let lifetime: u128 = self.lifetime.0 as u128 * 1_000_000;
        let idle: u128 = self.idle.0 as u128 * 1_000_000;
        if (now - self.created) as u128 >= lifetime || (now - self.progress) as u128 >= idle {
            return Err(protocol(ErrorCode::LimitExceeded, "result stream deadline reached"));
        }
        Ok(())
    }

    fn close(&mut self, reason: ErrorCode)
        ensures
            *final(self) == closed_lease(*old(self), reason),
    {
        if self.closed.is_none() {
            self.closed = Some(reason);
        }
        self.open = false;
        self.pending_bytes = 0;
    }
}

/// Every valid result header fits in a header frame.
proof fn lemma_header_fits(header: ResultHeader)
    requires
        header.valid(),
    ensures
        header.wire().len() <= MAX_HEADER,
{
    cbor::lemma_head(4, 8);
    cbor::lemma_head(4, 3);
    cbor::lemma_head(0, 1);
    cbor::lemma_head(0, header.request.0 as nat);
    cbor::lemma_head(0, header.generation.0 as nat);
    cbor::lemma_head(0, header.work.scope.0 as nat);
    cbor::lemma_head(0, header.work.producer.0 as nat);
    cbor::lemma_head(0, header.work.entity.0 as nat);
    cbor::lemma_head(0, header.attempt.0 as nat);
    cbor::lemma_head(0, header.index.0 as nat);
    cbor::lemma_head(0, header.length.0 as nat);
    cbor::lemma_head(2, 32);
}

impl AuthorityStore {
    /// Where the work stands whose published manifest the owner may read.
    fn retained_manifest(
        &self,
        identity: &SessionIdentity,
        key: &WorkKey,
        attempt: Id,
        caps: &Capabilities,
        grants: &Grants,
    ) -> (r: Result<usize, StoreError>)
        ensures
            match r {
                Ok(j) => {
                    &&& self@.manifest_fault(*identity, *key, attempt, *caps, *grants) is None
                    &&& self@.work_of(identity.generation, *key) == Ok::<int, Fault>(j as int)
                    &&& j < self@.work.len()
                    &&& self@.work[j as int].view.manifest is Some
                },
                Err(e) => self@.manifest_fault(*identity, *key, attempt, *caps, *grants) == Some(
                    e.fault(),
                ),
            },
    {
        selected_results(caps)?;
        let i = self.authorize_session(identity, grants, Permission::ReadResult)?;
        check_connection(&self.sessions[i], caps)?;
        if key.check().is_err() || attempt.check().is_err() {
            return Err(protocol(ErrorCode::FrameError, "invalid result request"));
        }
        let j = self.find_work(identity.generation, key)?;
        let view = &self.work[j].view;
        match view.validate_profiles(self.sessions[i].binding.results) {
            Ok(_) => {},
            Err(e) => {
                return Err(StoreError::Protocol(e));
            },
        }
        if view.attempt.0 != attempt.0 {
            return Err(protocol(ErrorCode::NotFound, "result attempt not retained"));
        }
        match &view.manifest {
            None => Err(protocol(ErrorCode::NotReady, "result not published")),
            Some(manifest) => {
                if !manifest.authority.same(&identity.authority) || !manifest.owner.same(
                    &identity.owner,
                ) || manifest.generation != identity.generation {
                    return Err(StoreError::Corrupt("manifest authority identity changed"));
                }
                Ok(j)
            },
        }
    }

    /// What is to be opened for a delivery: the work's row number and the header that announces it.
    pub fn read_plan(
        &self,
        identity: &SessionIdentity,
        request: &ResultMessage,
        caps: &Capabilities,
        grants: &Grants,
        clock: ClockReading,
    ) -> (r: Result<(u64, ResultHeader), StoreError>)
        ensures
            match r {
                Ok((row, header)) => {
                    &&& self@.read_fault(*identity, *request, *caps, *grants, clock) is None
                    &&& header == self@.read_header(*identity, *request)
                    &&& row == self@.work[self@.work_of(
                        identity.generation,
                        request->Read_work,
                    )->Ok_0].row
                },
                Err(e) => self@.read_fault(*identity, *request, *caps, *grants, clock) == Some(
                    e.fault(),
                ),
            },
    {
        selected_results(caps)?;
        match request {
            ResultMessage::Read { request: number, work, attempt, index, expected_sha256 } => {
                match request.check() {
                    Ok(_) => {},
                    Err(e) => {
                        return Err(StoreError::Protocol(e));
                    },
                }
                let j = self.retained_manifest(identity, work, *attempt, caps, grants)?;
                let manifest = match &self.work[j].view.manifest {
                    Some(manifest) => manifest,
                    None => {
                        return Err(protocol(ErrorCode::NotReady, "result not published"));
                    },
                };
                if index.0 >= manifest.outputs.len() as u64 {
                    return Err(protocol(ErrorCode::NotFound, "result output index absent"));
                }
                let output = &manifest.outputs[index.0 as usize];
                if !output.sha256.same(expected_sha256) {
                    return Err(protocol(ErrorCode::IntegrityError, "result commitment changed"));
                }
                let utc = self.check_clock(clock)?;
                if utc.0 >= manifest.available_until.0 {
                    return Err(protocol(ErrorCode::Expired, "result availability expired"));
                }
                if output.length.0 > caps.object_limit.0 {
                    return Err(
                        protocol(
                            ErrorCode::LimitExceeded,
                            "result exceeds negotiated object limit",
                        ),
                    );
                }
                match &self.work[j].job {
                    None => {
                        return Err(StoreError::Corrupt("published work has no job"));
                    },
                    Some(job) => {
                        if !job.outputs_live {
                            return Err(
                                protocol(
                                    ErrorCode::OutputUnavailable,
                                    "published output is not retained",
                                ),
                            );
                        }
                    },
                }
                let header = ResultHeader {
                    kind: Literal,
                    request: *number,
                    generation: identity.generation,
                    work: *work,
                    attempt: *attempt,
                    index: *index,
                    length: output.length,
                    sha256: output.sha256,
                };
                assert(header == self@.read_header(*identity, *request));
                match header.encode() {
                    Ok(_) => {},
                    Err(e) => {
                        proof {
                            if header.valid() {
                                lemma_header_fits(header);
                            }
                        }
                        return Err(StoreError::Protocol(e));
                    },
                }
                Ok((self.work[j].row, header))
            },
            _ => Err(protocol(ErrorCode::FrameError, "expected object-read request")),
        }
    }
}

/// A copy of a copy agrees with the value.
proof fn lemma_agreement_chains(a: Manifest, b: Manifest, c: Manifest)
    requires
        a.agrees(&b),
        b.agrees(&c),
    ensures
        a.agrees(&c),
{
}

impl ResultService {
    pub fn new() -> (r: Self)
        ensures
            r@.well_formed(),
            r@.last == 0,
            r@.rows.len() == 0,
    {
        ResultService { last: 0, reads: Vec::new() }
    }

    /// Read retained evidence, including under unsafe time or after external
    /// output expiry. The manifest's availability timestamp grants no read lease.
    #[verifier::spinoff_prover]
    #[verifier::rlimit(60)]
    pub fn manifest(
        &self,
        store: &AuthorityStore,
        identity: &SessionIdentity,
        key: &WorkKey,
        attempt: Id,
        caps: &Capabilities,
        access: &Access,
    ) -> (r: Result<Manifest, StoreError>)
        ensures
            manifest_handed(store@, *identity, *key, attempt, *caps, *access, r),
    {
        let j = store.retained_manifest(identity, key, attempt, caps, &access.before)?;
        let ghost published = store@.published(identity.generation, *key);
        let manifest = match &store.work[j].view.manifest {
            Some(manifest) => manifest.duplicate(),
            None => {
                return Err(protocol(ErrorCode::NotReady, "result not published"));
            },
        };
        let copy = manifest.duplicate();
        let message = ResultMessage::ManifestResponse { request: Id(MAX_NUMBER), manifest: copy };
        proof {
            let expected = ResultMessage::ManifestResponse {
                request: Id(MAX_NUMBER),
                manifest: published,
            };
            assert(manifest.agrees(&published));
            lemma_agreement_chains(copy, manifest, published);
            assert(message.agrees(&expected));
            ResultMessage::agrees_carries(&message, &expected);
        }
        match Control::Result(message).encode(caps.control_limit.0 as usize) {
            Ok(_) => {},
            Err(e) => {
                return Err(StoreError::Protocol(e));
            },
        }
        authorize(&access.after, Permission::ReadResult)?;
        Ok(manifest)
    }

    /// Pin the exact published object before returning a pending stream; `opened` is what the
    /// payload store said to the opening. Shared payload handle ceilings bound pending/active
    /// reads. No send buffer is allocated here. The endpoint also enforces connection limits.
    pub fn begin_read(
        &mut self,
        store: &mut AuthorityStore,
        identity: &SessionIdentity,
        request: &ResultMessage,
        caps: &Capabilities,
        access: &Access,
        clock: ClockReading,
        opened: Storage<()>,
        now: u64,
    ) -> (r: Result<ResultRead, StoreError>)
        requires
            old(self)@.well_formed(),
            old(store)@.well_formed(),
        ensures
            final(self)@.well_formed(),
            final(store)@.well_formed(),
            read_begun(
                old(store)@,
                old(self)@,
                *identity,
                *request,
                *caps,
                *access,
                clock,
                opened.fault(),
                now,
                r,
                final(store)@,
                final(self)@,
            ),
    {
        let (_, header) = store.read_plan(identity, request, caps, &access.before, clock)?;
        storage_read_error(opened)?;
        authorize(&access.after, Permission::ReadResult)?;
        store.greatest = clock.utc_ms.0;
        proof {
            accounts::lemma_rows_stay(old(store)@, store@);
        }
        let id = increment(self.last)?;
        self.last = id;
        self.reads.push(
            ReadRow {
                id,
                lease: Lease {
                    identity: identity.duplicate(),
                    header,
                    open: true,
                    created: now,
                    observed: now,
                    progress: now,
                    idle: caps.stream_idle_ms,
                    lifetime: caps.stream_lifetime_ms,
                    started: false,
                    pending_bytes: 0,
                    eof: false,
                    closed: None,
                },
                registered: true,
            },
        );
        Ok(ResultRead { id })
    }

    /// How many deliveries are registered.
    pub fn pending(&self) -> (r: usize)
        ensures
            r == self@.pending(),
    {
        let mut count: usize = 0;
        let mut i: usize = 0;
        assert((Reads { rows: self@.rows.take(0), ..self@ }).pending() == 0);
        while i < self.reads.len()
            invariant
                i <= self.reads@.len(),
                count <= i,
                count == (Reads { rows: self@.rows.take(i as int), ..self@ }).pending(),
            decreases self.reads@.len() - i,
        {
            proof {
                assert(self@.rows.take(i + 1).drop_last() =~= self@.rows.take(i as int));
                assert(self@.rows.take(i + 1).last() == self@.rows[i as int]);
            }
            if self.reads[i].registered {
                count += 1;
            }
            i += 1;
        }
        assert(self@.rows.take(i as int) =~= self@.rows);
        count
    }

    fn find(&self, id: u64) -> (r: Option<usize>)
        ensures
            match r {
                Some(i) => self@.has(id, i as int),
                None => forall|i: int| !#[trigger] self@.has(id, i),
            },
    {
        let mut i: usize = 0;
        while i < self.reads.len()
            invariant
                i <= self.reads@.len(),
                forall|j: int| 0 <= j < i ==> !#[trigger] self@.has(id, j),
            decreases self.reads@.len() - i,
        {
            if self.reads[i].id == id {
                return Some(i);
            }
            i += 1;
        }
        None
    }

    /// Puts a request to a delivery. Every failure ends it.
    fn with(
        &mut self,
        store: &AuthorityStore,
        read: ResultRead,
        request: &Request,
        now: u64,
        grants: &Grants,
    ) -> (r: Result<usize, StoreError>)
        requires
            old(self)@.well_formed(),
        ensures
            final(self)@.well_formed(),
            asked(old(self)@, store@, read, *request, now, *grants, final(self)@, failure(r)),
            r matches Ok(i) ==> old(self)@.has(read.id, i as int),
    {
        let ghost before = self@;
        let i = match self.find(read.id) {
            Some(i) => i,
            None => {
                return Err(protocol(ErrorCode::Cancelled, "result service stopped"));
            },
        };
        let ghost row = before.rows[i as int];
        let ghost after = answered(store@, row, *request, now, *grants);
        let outcome = match self.reads[i].lease.check(store, now, grants) {
            Err(e) => Err(e),
            Ok(_) => {
                self.reads[i].lease.observed = now;
                Self::serve(&mut self.reads[i].lease, request, now)
            },
        };
        match outcome {
            Err(e) => {
                self.reads[i].lease.close(error_code(&e));
                self.reads[i].registered = false;
                proof {
                    assert(self@.rows =~= before.rows.update(i as int, after.0));
                    assert(before.has(read.id, i as int));
                }
                Err(e)
            },
            Ok(_) => {
                proof {
                    assert(self@.rows =~= before.rows.update(i as int, after.0));
                    assert(before.has(read.id, i as int));
                }
                Ok(i)
            },
        }
    }

    fn serve(lease: &mut Lease, request: &Request, now: u64) -> (r: Result<(), StoreError>)
        ensures
            match r {
                Ok(_) => served(*old(lease), *request, now) == Ok::<Lease, Fault>(*final(lease)),
                Err(e) => served(*old(lease), *request, now) == Err::<Lease, Fault>(e.fault())
                    && *final(lease) == *old(lease),
            },
    {
        match request {
            Request::Start => {
                if lease.started {
                    return Err(protocol(ErrorCode::Conflict, "result stream already started"));
                }
                lease.started = true;
            },
            Request::Check => {},
            Request::Chunk => {
                if !lease.started || lease.pending_bytes != 0 || !lease.open {
                    return Err(
                        protocol(
                            ErrorCode::Conflict,
                            "result stream is not ready for another chunk",
                        ),
                    );
                }
            },
            Request::Sent(count) => {
                if !lease.started || *count > lease.pending_bytes {
                    return Err(
                        protocol(
                            ErrorCode::IntegrityError,
                            "result send progress exceeds read bytes",
                        ),
                    );
                }
                lease.pending_bytes = lease.pending_bytes - *count;
                if *count != 0 {
                    lease.progress = now;
                }
            },
            Request::Finish => {
                if !lease.started || !lease.eof || lease.pending_bytes != 0 {
                    return Err(
                        protocol(
                            ErrorCode::IntegrityError,
                            "result stream lacks complete verified output",
                        ),
                    );
                }
                lease.close(ErrorCode::AlreadyTerminal);
            },
        }
        Ok(())
    }

    fn status_of(statuses: &Vec<ReadStatus>, id: u64) -> (r: Option<usize>)
        ensures
            ({
                let s = super::table::index_where(statuses@, is_read_status(id));
                match r {
                    Some(i) => i == s && i < statuses@.len(),
                    None => s >= statuses@.len(),
                }
            }),
    {
        let ghost p = is_read_status(id);
        let mut i: usize = 0;
        while i < statuses.len()
            invariant
                i <= statuses@.len(),
                p == is_read_status(id),
                forall|j: int| 0 <= j < i ==> !p(#[trigger] statuses@[j]),
            decreases statuses@.len() - i,
        {
            if statuses[i].id == id {
                proof {
                    super::table::lemma_index_unique(statuses@, p, i as int);
                }
                return Some(i);
            }
            i += 1;
        }
        proof {
            super::table::lemma_index_unique(statuses@, p, i as int);
        }
        None
    }

    fn next_read(&self, after: u64, through: u64) -> (r: Option<usize>)
        ensures
            match r {
                Some(i) => self@.next(after, through, i as int),
                None => self@.none_left(after, through),
            },
    {
        let mut i: usize = 0;
        while i < self.reads.len()
            invariant
                i <= self.reads@.len(),
                forall|j: int| 0 <= j < i ==> !#[trigger] self@.candidate(after, through, j),
            decreases self.reads@.len() - i,
        {
            if self.reads[i].registered && after < self.reads[i].id && self.reads[i].id <= through {
                assert(self@.candidate(after, through, i as int));
                return Some(i);
            }
            i += 1;
        }
        None
    }

    /// Visit at most `limit` leases (1..256). A busy read stays pinned and is revisited;
    /// closing never refunds a handle while its I/O is still in progress.
    /// Each pass fixes its upper bound so new arrivals cannot starve older reads.
    pub fn maintain(
        &mut self,
        store: &AuthorityStore,
        cursor: &mut ReadCursor,
        limit: usize,
        now: u64,
        statuses: &Vec<ReadStatus>,
    ) -> (r: Result<ReadMaintenance, StoreError>)
        requires
            old(self)@.well_formed(),
        ensures
            final(self)@.well_formed(),
            old(self)@.maintenance_decided(
                store@,
                *old(cursor),
                limit,
                now,
                statuses@,
                r,
                final(self)@,
                *final(cursor),
            ),
    {
        if limit < 1 || limit > 256 {
            return Err(protocol(ErrorCode::LimitExceeded, "invalid read maintenance batch"));
        }
        Ok(self.maintain_rest(store, cursor, limit, now, statuses))
    }

    fn maintain_rest(
        &mut self,
        store: &AuthorityStore,
        cursor: &mut ReadCursor,
        n: usize,
        now: u64,
        statuses: &Vec<ReadStatus>,
    ) -> (report: ReadMaintenance)
        requires
            old(self)@.well_formed(),
            n <= 256,
        ensures
            final(self)@.well_formed(),
            report.inspected <= n,
            report.closed <= n,
            report.busy <= n,
            old(self)@.passed(
                store@,
                *old(cursor),
                n as nat,
                now,
                statuses@,
                final(self)@,
                *final(cursor),
                report,
            ),
        decreases n,
    {
        let ghost before = self@;
        if n == 0 {
            return ReadMaintenance { inspected: 0, closed: 0, busy: 0 };
        }
        let through = match cursor.through {
            Some(through) => through,
            None => self.last,
        };
        let i = match self.next_read(cursor.after, through) {
            Some(i) => i,
            None => {
                cursor.after = 0;
                cursor.through = None;
                return ReadMaintenance { inspected: 0, closed: 0, busy: 0 };
            },
        };
        let ghost row = before.rows[i as int];
        assert(before.next(cursor.after, through, i as int));
        assert(!before.none_left(cursor.after, through)) by {
            assert(before.candidate(cursor.after, through, i as int));
        }
        let id = self.reads[i].id;
        cursor.through = Some(through);
        cursor.after = id;
        let mut busy = true;
        let mut closed = false;
        match Self::status_of(statuses, id) {
            Some(s) => {
                if !statuses[s].busy {
                    busy = false;
                    // A timer timestamp may predate foreground progress that occurred
                    // while this pass was descheduled. It is not a clock rollback and
                    // must not replace the foreground observation high-water mark.
                    let observed = self.reads[i].lease.observed;
                    let at = if now < observed {
                        observed
                    } else {
                        now
                    };
                    match self.reads[i].lease.check(store, at, &statuses[s].grants) {
                        Ok(_) => {},
                        Err(e) => {
                            self.reads[i].lease.close(error_code(&e));
                            self.reads[i].registered = false;
                            closed = true;
                            assert(self@.rows =~= before.rows.update(
                                i as int,
                                failed_row(row, e.fault()),
                            ));
                        },
                    }
                }
            },
            None => {},
        }
        assert(before.maintained(store@, i as int, now, statuses@) == (self@, busy, closed));
        let ghost mid = self@;
        let ghost here = *cursor;
        let mut report = self.maintain_rest(store, cursor, n - 1, now, statuses);
        let ghost rest = report;
        report.inspected = report.inspected + 1;
        if busy {
            report.busy = report.busy + 1;
        }
        if closed {
            report.closed = report.closed + 1;
        }
        proof {
            assert(mid.passed(
                store@,
                here,
                (n - 1) as nat,
                now,
                statuses@,
                self@,
                *cursor,
                rest,
            ));
            assert(rest == (ReadMaintenance {
                inspected: (report.inspected - 1) as usize,
                closed: if closed {
                    (report.closed - 1) as usize
                } else {
                    report.closed
                },
                busy: if busy {
                    (report.busy - 1) as usize
                } else {
                    report.busy
                },
            }));
            assert(before.next(old(cursor).after, before.bound(*old(cursor)), i as int));
        }
        report
    }
}

impl ResultRead {
    /// Start the one response stream. Pending time is part of its lifetime.
    pub fn start(
        self,
        service: &mut ResultService,
        store: &AuthorityStore,
        now: u64,
        grants: &Grants,
    ) -> (r: Result<ResultHeader, StoreError>)
        requires
            old(service)@.well_formed(),
        ensures
            final(service)@.well_formed(),
            asked(old(service)@, store@, self, Request::Start, now, *grants, final(service)@, failure(r)),
            r matches Ok(header) ==> exists|i: int|
                #[trigger] old(service)@.has(self.id, i) && header == old(service)@.rows[i].lease.header,
    {
        let i = service.with(store, self, &Request::Start, now, grants)?;
        let header = &service.reads[i].lease.header;
        Ok(
            ResultHeader {
                kind: Literal,
                request: header.request,
                generation: header.generation,
                work: header.work,
                attempt: header.attempt,
                index: header.index,
                length: header.length,
                sha256: header.sha256,
            },
        )
    }

    /// Check immediately before scheduling a transport write or FIN, including
    /// after waiting for flow-control capacity with a previously read chunk.
    /// This grants no idle-time renewal. All `now` values come from the local
    /// monotonic clock, never a peer-supplied timestamp.
    pub fn check_deadline(
        self,
        service: &mut ResultService,
        store: &AuthorityStore,
        now: u64,
        grants: &Grants,
    ) -> (r: Result<(), StoreError>)
        requires
            old(service)@.well_formed(),
        ensures
            final(service)@.well_formed(),
            asked(old(service)@, store@, self, Request::Check, now, *grants, final(service)@, failure(r)),
    {
        service.with(store, self, &Request::Check, now, grants)?;
        Ok(())
    }

    /// Whether the next chunk may be read from the payload store.
    pub fn ready_for_chunk(
        self,
        service: &mut ResultService,
        store: &AuthorityStore,
        now: u64,
        grants: &Grants,
    ) -> (r: Result<(), StoreError>)
        requires
            old(service)@.well_formed(),
        ensures
            final(service)@.well_formed(),
            asked(old(service)@, store@, self, Request::Chunk, now, *grants, final(service)@, failure(r)),
    {
        service.with(store, self, &Request::Chunk, now, grants)?;
        Ok(())
    }

    /// At most one borrowed chunk may be outstanding; `outcome` is the size of the chunk that was
    /// read, where the payload store gave one. Bytes remain provisional until the receiving
    /// endpoint verifies the full object and FIN.
    pub fn read_chunk(
        self,
        service: &mut ResultService,
        store: &AuthorityStore,
        outcome: Storage<usize>,
        now: u64,
        grants: &Grants,
    ) -> (r: Result<usize, StoreError>)
        requires
            old(service)@.well_formed(),
        ensures
            final(service)@.well_formed(),
            exists|ready: Reads, refused: Option<Fault>|
                {
                    &&& #[trigger] asked(
                        old(service)@,
                        store@,
                        self,
                        Request::Chunk,
                        now,
                        *grants,
                        ready,
                        refused,
                    )
                    &&& match refused {
                        Some(fault) => r is Err && r->Err_0.fault() == fault && final(service)@ == ready,
                        None => match outcome {
                            Storage::Done(count) => r == Ok::<usize, StoreError>(count)
                                && chunk_taken(ready, self, count, final(service)@),
                            _ => r is Err && Some(r->Err_0.fault()) == outcome.fault()
                                && read_failed(ready, self, outcome.fault()->0, final(service)@),
                        },
                    }
                },
    {
        let ghost before = service@;
        let i = match service.with(store, self, &Request::Chunk, now, grants) {
            Ok(i) => i,
            Err(e) => {
                assert(asked(
                    before,
                    store@,
                    self,
                    Request::Chunk,
                    now,
                    *grants,
                    service@,
                    Some(e.fault()),
                ));
                return Err(e);
            },
        };
        let ghost ready = service@;
        assert(asked(before, store@, self, Request::Chunk, now, *grants, ready, None));
        assert(ready.has(self.id, i as int));
        match storage_read_error(outcome) {
            Ok(count) => {
                service.reads[i].lease.pending_bytes = count;
                service.reads[i].lease.eof = count == 0;
                proof {
                    let row = ready.rows[i as int];
                    assert(service@.rows =~= ready.rows.update(
                        i as int,
                        ReadRow {
                            lease: Lease { pending_bytes: count, eof: count == 0, ..row.lease },
                            ..row
                        },
                    ));
                    assert(chunk_taken(ready, self, count, service@));
                }
                Ok(count)
            },
            Err(e) => {
                service.reads[i].lease.close(error_code(&e));
                service.reads[i].registered = false;
                proof {
                    assert(service@.rows =~= ready.rows.update(
                        i as int,
                        failed_row(ready.rows[i as int], e.fault()),
                    ));
                    assert(read_failed(ready, self, e.fault(), service@));
                }
                Err(e)
            },
        }
    }

    /// Report bytes actually accepted by the bounded transport writer, not a
    /// disk read or application enqueue. Call `check_deadline` before that
    /// transport write. Empty progress cannot renew idle time.
    pub fn sent(
        self,
        service: &mut ResultService,
        store: &AuthorityStore,
        count: usize,
        now: u64,
        grants: &Grants,
    ) -> (r: Result<(), StoreError>)
        requires
            old(service)@.well_formed(),
        ensures
            final(service)@.well_formed(),
            asked(
                old(service)@,
                store@,
                self,
                Request::Sent(count),
                now,
                *grants,
                final(service)@,
                failure(r),
            ),
    {
        service.with(store, self, &Request::Sent(count), now, grants)?;
        Ok(())
    }

    /// Check authorization/deadline before FIN, then call this after scheduling
    /// a successful transport FIN, never after a reset.
    /// This releases delivery resources and makes no claim of client receipt.
    pub fn finish(
        self,
        service: &mut ResultService,
        store: &AuthorityStore,
        now: u64,
        grants: &Grants,
    ) -> (r: Result<(), StoreError>)
        requires
            old(service)@.well_formed(),
        ensures
            final(service)@.well_formed(),
            exists|ended: Reads|
                #[trigger] asked(
                    old(service)@,
                    store@,
                    self,
                    Request::Finish,
                    now,
                    *grants,
                    ended,
                    failure(r),
                ) && let_go(ended, self, final(service)@),
    {
        let outcome = match service.with(store, self, &Request::Finish, now, grants) {
            Ok(_) => Ok(()),
            Err(e) => Err(e),
        };
        self.release(service);
        outcome
    }

    /// Lets go of a delivery, whatever has become of it.
    pub fn release(self, service: &mut ResultService)
        requires
            old(service)@.well_formed(),
        ensures
            final(service)@.well_formed(),
            let_go(old(service)@, self, final(service)@),
    {
        let ghost before = service@;
        match service.find(self.id) {
            Some(i) => {
                service.reads.remove(i);
                proof {
                    assert(service@.rows =~= before.rows.remove(i as int));
                    assert(before.has(self.id, i as int));
                    assert forall|a: int, b: int| 0 <= a < b < service@.rows.len() implies (
                    #[trigger] service@.rows[a]).id < (#[trigger] service@.rows[b]).id by {
                        let x = if a < i {
                            a
                        } else {
                            a + 1
                        };
                        let y = if b < i {
                            b
                        } else {
                            b + 1
                        };
                        assert(before.rows[x].id < before.rows[y].id);
                    }
                }
            },
            None => {},
        }
    }
}

/// What a request for a manifest comes to: the manifest that was published, where it may be handed out
/// and fits into a frame, or why it is not.
pub open spec fn manifest_handed(
    t: Tables,
    identity: SessionIdentity,
    key: WorkKey,
    attempt: Id,
    caps: Capabilities,
    access: Access,
    r: Result<Manifest, StoreError>,
) -> bool {
    let published = t.published(identity.generation, key);
    let reply = Control::Result(
        ResultMessage::ManifestResponse { request: Id(MAX_NUMBER), manifest: published },
    );
    let fault = if t.manifest_fault(identity, key, attempt, caps, access.before) is Some {
        t.manifest_fault(identity, key, attempt, caps, access.before)
    } else if !reply.sendable(caps.control_limit.0 as usize) {
        Some(Fault::Refused(ErrorCode::FrameError))
    } else if !access.after.read_result {
        Some(Fault::Refused(ErrorCode::Unauthorized))
    } else {
        None
    };
    match r {
        Ok(m) => fault is None && m.agrees(&published),
        Err(e) => fault == Some(e.fault()),
    }
}

/// What a read comes to: a refusal that changes nothing, or one more delivery under its own number.
/// `opening` is why the object could not be opened, if it could not.
pub open spec fn read_begun(
    t: Tables,
    before: Reads,
    identity: SessionIdentity,
    request: ResultMessage,
    caps: Capabilities,
    access: Access,
    clock: ClockReading,
    opening: Option<Fault>,
    now: u64,
    r: Result<ResultRead, StoreError>,
    then: Tables,
    after: Reads,
) -> bool {
    begun_by(
        t,
        before,
        identity,
        t.read_fault(identity, request, caps, access.before, clock),
        t.read_header(identity, request),
        caps,
        access,
        clock,
        opening,
        now,
        r,
        then,
        after,
    )
}

/// What a read comes to that is refused for a reason, or else announced by a header.
pub open spec fn begun_by(
    t: Tables,
    before: Reads,
    identity: SessionIdentity,
    plan: Option<Fault>,
    header: ResultHeader,
    caps: Capabilities,
    access: Access,
    clock: ClockReading,
    opening: Option<Fault>,
    now: u64,
    r: Result<ResultRead, StoreError>,
    then: Tables,
    after: Reads,
) -> bool {
    let fault = if plan is Some {
        plan
    } else if opening is Some {
        opening
    } else if !access.after.read_result {
        Some(Fault::Refused(ErrorCode::Unauthorized))
    } else {
        None
    };
    let row = after.rows.last();
    if fault is Some {
        r is Err && r->Err_0.fault() == fault->0 && then == t && after == before
    } else {
        &&& then == (Tables { greatest: clock.utc_ms.0, ..t })
        &&& match r {
            Err(e) => e.fault() == Fault::Refused(ErrorCode::LimitExceeded) && before.last
                >= MAX_NUMBER && after == before,
            Ok(read) => {
                &&& read.id == before.last + 1
                &&& after.last == read.id
                &&& after.rows == before.rows.push(row)
                &&& row.id == read.id
                &&& row.registered
                &&& row.lease.identity.agrees(identity)
                &&& row.lease == (Lease {
                    identity: row.lease.identity,
                    header,
                    open: true,
                    created: now,
                    observed: now,
                    progress: now,
                    idle: caps.stream_idle_ms,
                    lifetime: caps.stream_lifetime_ms,
                    started: false,
                    pending_bytes: 0,
                    eof: false,
                    closed: None,
                })
            },
        }
    }
}

/// A request was put to the delivery of a handle. A handle without a delivery is told that the
/// service stopped.
pub open spec fn asked(
    before: Reads,
    t: Tables,
    read: ResultRead,
    request: Request,
    now: u64,
    grants: Grants,
    after: Reads,
    fault: Option<Fault>,
) -> bool {
    ||| {
        &&& forall|i: int| !#[trigger] before.has(read.id, i)
        &&& after == before
        &&& fault == Some(Fault::Refused(ErrorCode::Cancelled))
    }
    ||| exists|i: int|
        {
            &&& #[trigger] before.has(read.id, i)
            &&& after == (Reads {
                rows: before.rows.update(
                    i,
                    answered(t, before.rows[i], request, now, grants).0,
                ),
                ..before
            })
            &&& fault == answered(t, before.rows[i], request, now, grants).1
        }
}

/// A chunk was read. An empty one is the end of the object.
pub open spec fn chunk_taken(before: Reads, read: ResultRead, count: usize, after: Reads) -> bool {
    exists|i: int|
        #[trigger] before.has(read.id, i) && after == (Reads {
            rows: before.rows.update(
                i,
                (ReadRow {
                    lease: Lease { pending_bytes: count, eof: count == 0, ..before.rows[i].lease },
                    ..before.rows[i]
                }),
            ),
            ..before
        })
}

/// A delivery failed.
pub open spec fn read_failed(before: Reads, read: ResultRead, fault: Fault, after: Reads) -> bool {
    exists|i: int|
        #[trigger] before.has(read.id, i) && after == (Reads {
            rows: before.rows.update(i, failed_row(before.rows[i], fault)),
            ..before
        })
}

/// A delivery was let go of.
pub open spec fn let_go(before: Reads, read: ResultRead, after: Reads) -> bool {
    ||| (forall|i: int| !#[trigger] before.has(read.id, i)) && after == before
    ||| exists|i: int|
        #[trigger] before.has(read.id, i) && after == (Reads {
            rows: before.rows.remove(i),
            ..before
        })
}

} // verus!
