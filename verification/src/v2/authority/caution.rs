//! What the authority never does: it shows nothing and changes nothing for one whom the session does not
//! serve, it delivers no result that cannot be delivered, and it takes an operation number once.

use super::super::commitments::SessionIdentity;
use super::super::error::{ErrorCode, DURABLE_WORK, MAX_NUMBER, RESULT_DELIVERY};
use super::super::labels::{Digest, OperationId};
use super::super::messages::{Control, ResultMessage};
use super::super::negotiation::Capabilities;
use super::super::numbers::{Id, Number, OutputIndex, PageLimit, Producer, State};
use super::super::records::{Manifest, OperationReceipt, WorkKey};
use super::super::wire::Wire;
use super::acceptance;
use super::conduct;
use super::exchange;
use super::release;
use super::results;
use super::scopes::{self, Declaration};
use super::settlement;
use super::store::{
    self, Access, ClockReading, Fault, Grants, Permission, StoreError, Tables,
};
use super::table;
use vstd::prelude::*;

verus! {

/// Some session serves the owner under the name.
pub open spec fn served(t: Tables, identity: SessionIdentity) -> bool {
    exists|i: int| #[trigger] exchange::serves(t, i, identity)
}

proof fn lemma_served(
    t: Tables,
    identity: SessionIdentity,
    grants: Grants,
    permission: Permission,
)
    requires
        t.arranged(),
        t.session_fault(identity, grants, permission) is None,
    ensures
        served(t, identity),
        identity.valid(),
        grants.allows(permission),
        exchange::serves(t, t.session_at(identity.generation), identity),
{
    let i = t.session_at(identity.generation);
    let p = store::is_session(identity.generation);
    table::lemma_index_where(t.sessions, p);
    assert(p(t.sessions[i]));
    exchange::law_session_serves_its_owner(t, i, identity, grants, permission);
    assert(exchange::serves(t, i, identity));
}

/// Work, pages, summaries and receipts are shown to those alone whom the session serves and who may
/// look.
pub proof fn law_nothing_is_shown_to_strangers(
    t: Tables,
    identity: SessionIdentity,
    key: WorkKey,
    known: Number,
    scope: Number,
    behind: Number,
    limit: PageLimit,
    seal: Digest,
    operation: OperationId,
    grants: Grants,
)
    requires
        t.arranged(),
        !grants.inspect || !served(t, identity),
    ensures
        t.watch_fault(identity, key, known, grants) is Some,
        t.page_fault(identity, scope, behind, limit, grants) is Some,
        t.checkpoint_fault(identity, scope, seal, grants) is Some,
        t.operation_fault(identity, operation, grants) is Some,
{
    if t.session_fault(identity, grants, Permission::Inspect) is None {
        lemma_served(t, identity, grants, Permission::Inspect);
    }
}

/// Work that is not there is not found; work of the same number under another producer is in
/// conflict.
pub proof fn law_absent_work_is_not_found(
    t: Tables,
    identity: SessionIdentity,
    key: WorkKey,
    known: Number,
    grants: Grants,
    i: int,
    j: int,
)
    requires
        t.arranged(),
        identity.valid(),
        key.valid(),
        known.valid(),
        grants.inspect,
        exchange::serves(t, i, identity),
    ensures
        (forall|m: int|
            0 <= m < t.work.len() ==> !((#[trigger] t.work[m]).generation == identity.generation
                && t.work[m].view.work.scope == key.scope && t.work[m].view.work.entity
                == key.entity)) ==> t.watch_fault(identity, key, known, grants) == Some(
            Fault::Refused(ErrorCode::NotFound),
        ),
        release::work_row(t, j, identity.generation, key.scope.0, key.entity.0)
            && t.work[j].view.work.producer != key.producer ==> t.watch_fault(
            identity,
            key,
            known,
            grants,
        ) == Some(Fault::Refused(ErrorCode::Conflict)),
{
    exchange::law_session_serves_its_owner(t, i, identity, grants, Permission::Inspect);
    let p = store::is_work(identity.generation, key.scope, key.entity);
    table::lemma_index_where(t.work, p);
    let m = t.work_at(identity.generation, key.scope, key.entity);
    if m < t.work.len() {
        assert(p(t.work[m]));
    }
    if release::work_row(t, j, identity.generation, key.scope.0, key.entity.0) {
        release::lemma_work_row(t, j, identity.generation, key.scope, key.entity);
    }
}

/// A scope that is not there is not found, and one that is sealed otherwise is not vouched for.
pub proof fn law_absent_scope_is_not_found(
    t: Tables,
    identity: SessionIdentity,
    scope: Number,
    behind: Number,
    limit: PageLimit,
    seal: Digest,
    grants: Grants,
    i: int,
)
    requires
        t.arranged(),
        identity.valid(),
        scope.valid(),
        behind.valid(),
        limit.valid(),
        grants.inspect,
        exchange::serves(t, i, identity),
    ensures
        (forall|k: int|
            0 <= k < t.scopes.len() ==> !((#[trigger] t.scopes[k]).generation == identity.generation
                && t.scopes[k].scope == scope)) ==> {
            &&& t.page_fault(identity, scope, behind, limit, grants) == Some(
                Fault::Refused(ErrorCode::NotFound),
            )
            &&& t.checkpoint_fault(identity, scope, seal, grants) == Some(
                Fault::Refused(ErrorCode::NotFound),
            )
        },
        forall|k: int|
            #![trigger t.scopes[k]]
            release::scope_row(t, k, identity.generation, scope.0) && t.scopes[k].seal is Some && (
            t.scopes[k].seal->0).0@ != seal.0@ ==> t.checkpoint_fault(identity, scope, seal, grants)
                == Some(Fault::Refused(ErrorCode::IntegrityError)),
{
    exchange::law_session_serves_its_owner(t, i, identity, grants, Permission::Inspect);
    let p = store::is_scope(identity.generation, scope);
    table::lemma_index_where(t.scopes, p);
    let k = t.scope_at(identity.generation, scope);
    if k < t.scopes.len() {
        assert(p(t.scopes[k]));
    }
    assert forall|k: int|
        #![trigger t.scopes[k]]
        release::scope_row(t, k, identity.generation, scope.0) && t.scopes[k].seal is Some && (
        t.scopes[k].seal->0).0@ != seal.0@ implies t.checkpoint_fault(identity, scope, seal, grants)
        == Some(Fault::Refused(ErrorCode::IntegrityError)) by {
        release::lemma_scope_row(t, k, identity.generation, scope.0);
    }
}

/// What a retained receipt is asked for by its operation, and given where it is there.
pub proof fn law_receipt_is_given_where_kept(
    t: Tables,
    identity: SessionIdentity,
    operation: OperationId,
    grants: Grants,
    i: int,
)
    requires
        t.arranged(),
        identity.valid(),
        operation.valid(),
        grants.inspect,
        exchange::serves(t, i, identity),
    ensures
        if exists|o: int| kept_first(t, o, identity.generation, operation) {
            t.operation_fault(identity, operation, grants) is None
        } else {
            t.operation_fault(identity, operation, grants) == Some(
                Fault::Refused(ErrorCode::NotFound),
            )
        },
{
    exchange::law_session_serves_its_owner(t, i, identity, grants, Permission::Inspect);
    let p = store::is_operation(
        identity.generation,
        Producer(0),
        operation.0@,
    );
    table::lemma_index_where(t.operations, p);
    let o = t.operation_at(
        identity.generation,
        Producer(0),
        operation.0@,
    );
    if o < t.operations.len() {
        assert(p(t.operations[o]));
        assert forall|n: int| 0 <= n < o implies !kept_as(
            #[trigger] t.operations[n],
            identity.generation,
            operation,
        ) by {
            assert(!p(t.operations[n]));
        }
        assert(kept_first(t, o, identity.generation, operation));
    } else {
        assert forall|n: int| !kept_first(t, n, identity.generation, operation) by {
            if 0 <= n < t.operations.len() {
                assert(!p(t.operations[n]));
            }
        }
    }
}

/// The row keeps the receipt of the owner's operation in the session.
pub open spec fn kept_as(row: store::OperationRow, generation: Id, operation: OperationId) -> bool {
    row.generation == generation && row.originator.0 == 0 && row.receipt.operation.0@
        == operation.0@
}

/// The first row that keeps the receipt of the operation.
pub open spec fn kept_first(t: Tables, o: int, generation: Id, operation: OperationId) -> bool {
    &&& 0 <= o < t.operations.len()
    &&& kept_as(t.operations[o], generation, operation)
    &&& forall|n: int| 0 <= n < o ==> !kept_as(#[trigger] t.operations[n], generation, operation)
}

proof fn lemma_kept(t: Tables, o: int, generation: Id, operation: OperationId)
    requires
        kept_first(t, o, generation, operation),
    ensures
        t.operation_at(generation, Producer(0), operation.0@) == o,
{
    let p = store::is_operation(generation, Producer(0), operation.0@);
    assert forall|n: int| 0 <= n < o implies !p(#[trigger] t.operations[n]) by {
        assert(!kept_as(t.operations[n], generation, operation));
    }
    table::lemma_index_unique(t.operations, p, o);
}

/// An operation number is used once: another request under it is refused and changes nothing, and the
/// same request is answered with the receipt that was kept, and changes nothing.
pub proof fn law_operation_is_taken_once(
    t: Tables,
    o: int,
    d: Declaration,
    key: WorkKey,
    skip: bool,
    access: Access,
    clock: ClockReading,
    r: Result<OperationReceipt, StoreError>,
    after: Tables,
)
    requires
        kept_first(t, o, d.identity.generation, d.operation),
    ensures
        scopes::declaration_decided(t, d, access, clock, r, after) ==> {
            &&& after == t
            &&& r matches Ok(receipt) ==> receipt.agrees(&t.operations[o].receipt)
                && t.operations[o].receipt.request_digest.0@ == d.digest()
            &&& t.declare_entry_fault(d, access.before) is None
                && t.operations[o].receipt.request_digest.0@ != d.digest() ==> (r matches Err(e)
                && e.fault() == Fault::Refused(ErrorCode::Conflict))
        },
        settlement::fence_decided(
            t,
            d.identity,
            d.operation,
            key,
            skip,
            access,
            clock,
            r,
            after,
        ) ==> {
            &&& after == t
            &&& r matches Ok(receipt) ==> receipt.agrees(&t.operations[o].receipt)
        },
        settlement::scope_cancel_decided(
            t,
            d.identity,
            d.operation,
            d.scope,
            access,
            clock,
            r,
            after,
        ) ==> {
            &&& after == t
            &&& r matches Ok(receipt) ==> receipt.agrees(&t.operations[o].receipt)
        },
{
    lemma_kept(t, o, d.identity.generation, d.operation);
}

/// A declaration is looked at where it names up to two hundred and fifty-six members in ascending order,
/// or seals, and the session serves one who may declare.
pub proof fn law_declaration_is_looked_at(t: Tables, i: int, d: Declaration, grants: Grants)
    requires
        t.arranged(),
        d.identity.valid(),
        d.operation.valid(),
        d.scope.valid(),
        d.entity_ids.valid(),
        0 <= i < t.sessions.len(),
        t.sessions[i].binding.identity.generation == d.identity.generation,
    ensures
        t.declare_entry_fault(d, grants) is None <==> {
            &&& d.entity_ids@.len() <= 256
            &&& d.sealed || d.entity_ids@.len() > 0
            &&& forall|m: int, n: int|
                0 <= m < n < d.entity_ids@.len() ==> (#[trigger] d.entity_ids@[m]).0 < (
                #[trigger] d.entity_ids@[n]).0
            &&& grants.declare
            &&& exchange::serves(t, i, d.identity)
        },
{
    exchange::law_session_serves_its_owner(t, i, d.identity, grants, Permission::Declare);
}

/// A change that was made was allowed: the session serves the one who asked, and they might do it both
/// before and after it was decided.
pub proof fn law_changes_are_allowed(
    t: Tables,
    d: Declaration,
    key: WorkKey,
    skip: bool,
    access: Access,
    clock: ClockReading,
    r: Result<OperationReceipt, StoreError>,
    after: Tables,
)
    requires
        t.arranged(),
        after != t,
    ensures
        scopes::declaration_decided(t, d, access, clock, r, after) ==> {
            &&& r is Ok
            &&& served(t, d.identity)
            &&& access.before.declare && access.after.declare
            &&& acceptance::timely(t, clock)
        },
        settlement::fence_decided(
            t,
            d.identity,
            d.operation,
            key,
            skip,
            access,
            clock,
            r,
            after,
        ) ==> {
            &&& r is Ok
            &&& served(t, d.identity)
            &&& if skip {
                access.before.skip && access.after.skip
            } else {
                access.before.cancel && access.after.cancel
            }
            &&& acceptance::timely(t, clock)
        },
        settlement::scope_cancel_decided(
            t,
            d.identity,
            d.operation,
            d.scope,
            access,
            clock,
            r,
            after,
        ) ==> {
            &&& r is Ok
            &&& served(t, d.identity)
            &&& access.before.cancel && access.after.cancel
            &&& acceptance::timely(t, clock)
        },
{
    if t.session_fault(d.identity, access.before, Permission::Declare) is None {
        lemma_served(t, d.identity, access.before, Permission::Declare);
    }
    if t.session_fault(d.identity, access.before, Permission::Cancel) is None {
        lemma_served(t, d.identity, access.before, Permission::Cancel);
    }
    if t.session_fault(d.identity, access.before, Permission::Skip) is None {
        lemma_served(t, d.identity, access.before, Permission::Skip);
    }
}

/// A fence on work is taken exactly where there is room for its receipt, the clock may be acted on, the
/// one who set it still may, and the work is over, or under a scope that takes changes and not held for
/// the other end.
pub proof fn law_fence_is_taken(
    t: Tables,
    i: int,
    j: int,
    at: release::Place,
    key: WorkKey,
    skip: bool,
    operation: OperationId,
    access: Access,
    clock: ClockReading,
)
    requires
        t.well_formed(),
        0 <= i < t.sessions.len(),
        t.sessions[i].binding.identity.generation == t.work[j].generation,
        exchange::keyed(t, j, t.work[j].generation, key),
        release::placed(t, j, at),
        clock.utc_ms.0 + t.sessions[i].binding.policy.receipt_retention_ms.0 <= MAX_NUMBER,
        t.work[j].revision.0 < MAX_NUMBER,
        t.work[j].fence is Some && !conduct::over(t.work[j]) ==> t.work[j].view.state.0
            == State::CANCELLING,
    ensures
        t.work_fence_fault(t.work[j].generation, key, skip, operation, access, clock) is None <==> {
            let row = t.work[j];
            let end = if skip {
                State::SKIPPED
            } else {
                State::CANCELLED
            };
            &&& t.sessions[i].operations + 1 <= t.sessions[i].binding.limits.operations.0
            &&& acceptance::timely(t, clock)
            &&& if skip {
                access.after.skip
            } else {
                access.after.cancel
            }
            &&& conduct::over(row) || {
                &&& t.open_fault(row.generation, row.view.work.scope) is None
                &&& row.fence matches Some(f) ==> f.outcome.0 == end
            }
        },
{
    let row = t.work[j];
    exchange::lemma_keyed(t, j, row.generation, key);
    release::lemma_session_row(t, i);
    assert(t.named(t.sessions[i]) && t.profiled(row)) by {
        reveal(Tables::accounted);
    }
    if t.safe(clock) {
        acceptance::law_fence_takes_hold(
            t,
            j,
            at,
            skip,
            operation,
            clock.utc_ms,
            t.sessions[i].binding.policy.receipt_retention_ms,
        );
    }
}

/// The session is one that a connection with its selection carries results for.
pub open spec fn carries_results(t: Tables, identity: SessionIdentity, caps: Capabilities) -> bool {
    &&& caps.supports(DURABLE_WORK)
    &&& caps.supports(RESULT_DELIVERY)
    &&& caps.response.0 == 1
    &&& exists|i: int|
        {
            &&& #[trigger] exchange::serves(t, i, identity)
            &&& acceptance::carries(t.sessions[i], caps)
        }
}

/// A manifest or a result is handed out to those alone whom the session serves and who may read, over a
/// connection that carries it; a result, also, only by a clock that may be acted on.
pub proof fn law_results_are_for_readers(
    t: Tables,
    identity: SessionIdentity,
    request: ResultMessage,
    key: WorkKey,
    attempt: Id,
    caps: Capabilities,
    grants: Grants,
    clock: ClockReading,
)
    requires
        t.arranged(),
    ensures
        t.manifest_fault(identity, key, attempt, caps, grants) is None ==> grants.read_result
            && carries_results(t, identity, caps),
        t.read_fault(identity, request, caps, grants, clock) is None ==> grants.read_result
            && carries_results(t, identity, caps) && acceptance::timely(t, clock),
{
    if t.session_fault(identity, grants, Permission::ReadResult) is None {
        lemma_served(t, identity, grants, Permission::ReadResult);
    }
}

/// Why a result that was published is not read: there is no output of that number, its octets are not
/// the ones expected, it is no longer available, it is larger than the connection takes, or it is no
/// longer held. The first of these that holds is told.
pub proof fn law_refused_read_says_why(
    t: Tables,
    j: int,
    identity: SessionIdentity,
    number: Id,
    work: WorkKey,
    attempt: Id,
    index: OutputIndex,
    expected_sha256: Digest,
    caps: Capabilities,
    grants: Grants,
    clock: ClockReading,
)
    requires
        t.arranged(),
        exchange::keyed(t, j, identity.generation, work),
        (ResultMessage::Read { request: number, work, attempt, index, expected_sha256 }).valid(),
        t.manifest_fault(identity, work, attempt, caps, grants) is None,
        acceptance::timely(t, clock),
    ensures
        ({
            let fault = t.read_fault(
                identity,
                ResultMessage::Read { request: number, work, attempt, index, expected_sha256 },
                caps,
                grants,
                clock,
            );
            let m = t.work[j].view.manifest->0;
            let output = m.outputs@[index.0 as int];
            if index.0 >= m.outputs@.len() {
                fault == Some(Fault::Refused(ErrorCode::NotFound))
            } else if output.sha256.0@ != expected_sha256.0@ {
                fault == Some(Fault::Refused(ErrorCode::IntegrityError))
            } else if m.available_until.0 <= clock.utc_ms.0 {
                fault == Some(Fault::Refused(ErrorCode::Expired))
            } else if caps.object_limit.0 < output.length.0 {
                fault == Some(Fault::Refused(ErrorCode::LimitExceeded))
            } else {
                t.work[j].job matches Some(job) && !job.outputs_live ==> fault == Some(
                    Fault::Refused(ErrorCode::OutputUnavailable),
                )
            }
        }),
{
    exchange::lemma_keyed(t, j, identity.generation, work);
}

/// Why a manifest is not handed out to a reader of the session: another attempt is not found, and work
/// that has published none is not ready.
pub proof fn law_refused_manifest_says_why(
    t: Tables,
    i: int,
    j: int,
    identity: SessionIdentity,
    key: WorkKey,
    attempt: Id,
    caps: Capabilities,
    grants: Grants,
)
    requires
        t.well_formed(),
        exchange::serves(t, i, identity),
        identity.valid(),
        key.valid(),
        attempt.valid(),
        grants.read_result,
        results::results_fault(caps) is None,
        acceptance::carries(t.sessions[i], caps),
        exchange::keyed(t, j, identity.generation, key),
    ensures
        t.work[j].view.attempt.0 != attempt.0 ==> t.manifest_fault(
            identity,
            key,
            attempt,
            caps,
            grants,
        ) == Some(Fault::Refused(ErrorCode::NotFound)),
        t.work[j].view.attempt.0 == attempt.0 && t.work[j].view.manifest is None
            ==> t.manifest_fault(identity, key, attempt, caps, grants) == Some(
            Fault::Refused(ErrorCode::NotReady),
        ),
{
    exchange::lemma_keyed(t, j, identity.generation, key);
    release::lemma_session_row(t, i);
    exchange::law_session_serves_its_owner(t, i, identity, grants, Permission::ReadResult);
    assert(t.profiled(t.work[j])) by {
        reveal(Tables::accounted);
    }
}

/// A manifest that is handed out is the one that the attempt published, in a frame of the size that was
/// agreed on, to one who might read it both before and after it was looked up.
pub proof fn law_manifest_goes_to_readers(
    t: Tables,
    j: int,
    identity: SessionIdentity,
    key: WorkKey,
    attempt: Id,
    caps: Capabilities,
    access: Access,
    r: Result<Manifest, StoreError>,
)
    requires
        t.arranged(),
        exchange::keyed(t, j, identity.generation, key),
        results::manifest_handed(t, identity, key, attempt, caps, access, r),
    ensures
        r matches Ok(m) ==> {
            &&& access.before.read_result
            &&& access.after.read_result
            &&& carries_results(t, identity, caps)
            &&& t.work[j].view.attempt.0 == attempt.0
            &&& t.work[j].view.manifest matches Some(p) && m.agrees(&p)
        },
        r is Ok <==> {
            &&& t.manifest_fault(identity, key, attempt, caps, access.before) is None
            &&& access.after.read_result
            &&& Control::Result(
                ResultMessage::ManifestResponse {
                    request: Id(MAX_NUMBER),
                    manifest: t.work[j].view.manifest->0,
                },
            ).sendable(caps.control_limit.0 as usize)
        },
{
    exchange::lemma_keyed(t, j, identity.generation, key);
    if t.session_fault(identity, access.before, Permission::ReadResult) is None {
        lemma_served(t, identity, access.before, Permission::ReadResult);
    }
}

} // verus!
