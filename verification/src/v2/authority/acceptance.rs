//! When the authority accepts a change, and what the change is, told from the rows: sessions are
//! created in order and within bounds, members are declared behind those before them, fences end work or
//! hold it until what is below it has closed.

use super::super::commitments::{self, SessionIdentity};
use super::super::error::{ErrorCode, DURABLE_WORK, MAX_NUMBER, RESULT_DELIVERY};
use super::super::labels::{IdentityLabel, OperationId};
use super::super::negotiation::Capabilities;
use super::super::numbers::{Duration, Id, Number, State};
use super::super::records::{OperationReceipt, Outcome, Policy, WorkKey};
use super::super::wire::Wire;
use super::accounts;
use super::conduct;
use super::exchange;
use super::release;
use super::scopes::Declaration;
use super::sessions;
use super::settlement;
use super::store::{
    self, Access, Binding, ClockReading, Fault, Grants, Permission, SessionRow, StoreError, Tables,
    WorkRow,
};
use super::table;
use vstd::prelude::*;

verus! {

/// The clock may be acted on.
pub open spec fn timely(t: Tables, clock: ClockReading) -> bool {
    clock.trusted && t.greatest <= clock.utc_ms.0 <= MAX_NUMBER
}

/// The owner has used the creation numbers up to this one.
pub open spec fn used_up_to(t: Tables, owner: Seq<char>, n: u64) -> bool {
    ||| exists|o: int|
        {
            &&& 0 <= o < t.owners.len()
            &&& (#[trigger] t.owners[o]).owner.0@ == owner
            &&& t.owners[o].last_creation == n
            &&& forall|j: int| 0 <= j < o ==> (#[trigger] t.owners[j]).owner.0@ != owner
        }
    ||| n == 0 && forall|j: int| 0 <= j < t.owners.len() ==> (#[trigger] t.owners[j]).owner.0@ != owner
}

pub proof fn lemma_used_up_to(t: Tables, owner: Seq<char>, n: u64)
    requires
        used_up_to(t, owner, n),
    ensures
        t.last_creation(owner) == n,
        t.owner_at(owner) < t.owners.len() <==> exists|o: int|
            0 <= o < t.owners.len() && (#[trigger] t.owners[o]).owner.0@ == owner,
{
    let p = store::is_owner(owner);
    table::lemma_index_where(t.owners, p);
    if exists|o: int| 0 <= o < t.owners.len() && (#[trigger] t.owners[o]).owner.0@ == owner {
        let o = choose|o: int|
            {
                &&& 0 <= o < t.owners.len()
                &&& (#[trigger] t.owners[o]).owner.0@ == owner
                &&& t.owners[o].last_creation == n
                &&& forall|j: int| 0 <= j < o ==> (#[trigger] t.owners[j]).owner.0@ != owner
            };
        assert forall|j: int| 0 <= j < o implies !p(#[trigger] t.owners[j]) by {}
        table::lemma_index_unique(t.owners, p, o);
    } else {
        assert forall|j: int| 0 <= j < t.owners.len() implies !p(#[trigger] t.owners[j]) by {}
        table::lemma_index_unique(t.owners, p, t.owners.len() as int);
    }
}

/// How many of the sessions are the owner's.
pub open spec fn owned(rows: Seq<SessionRow>, owner: Seq<char>) -> nat
    decreases rows.len(),
{
    if rows.len() == 0 {
        0
    } else {
        owned(rows.drop_last(), owner) + if rows.last().binding.identity.owner.0@ == owner {
            1nat
        } else {
            0nat
        }
    }
}

proof fn lemma_owned(rows: Seq<SessionRow>, owner: Seq<char>)
    ensures
        owned(rows, owner) == table::rows_where(rows, sessions::owned_by(owner)).len(),
    decreases rows.len(),
{
    if rows.len() > 0 {
        lemma_owned(rows.drop_last(), owner);
    }
}

/// There is room for one more session of the owner.
pub open spec fn room(t: Tables, owner: Seq<char>) -> bool {
    &&& owned(t.sessions, owner) < t.policy.sessions_per_owner.0
    &&& t.sessions.len() < t.policy.sessions.0
    &&& t.owners.len() < t.policy.owners.0 || exists|o: int|
        0 <= o < t.owners.len() && (#[trigger] t.owners[o]).owner.0@ == owner
    &&& t.last_generation < MAX_NUMBER
    &&& t.scopes.len() > 0 ==> t.scopes.last().row < MAX_NUMBER
}

/// A session is created with the number behind the last one that its owner used, where there is room
/// for it; then and only then the tables change. A number that was used before gives the session that
/// was created with it, and no other; one further ahead is refused.
pub proof fn law_sessions_are_created_in_order(
    t: Tables,
    owner: IdentityLabel,
    sequence: Id,
    policy: Policy,
    caps: Capabilities,
    access: Access,
    clock: ClockReading,
    r: Result<Binding, StoreError>,
    after: Tables,
    n: u64,
)
    requires
        used_up_to(t, owner.0@, n),
        sessions::creation_decided(t, owner, sequence, policy, caps, access, clock, r, after),
    ensures
        r is Err ==> after == t,
        sequence.0 > n + 1 ==> r is Err,
        r is Ok ==> access.before.create && caps.supports(DURABLE_WORK) && caps.response.0 == 1,
        sequence.0 <= n ==> (r matches Ok(b) ==> after == t && exists|i: int|
            {
                &&& 0 <= i < t.sessions.len()
                &&& b.agrees((#[trigger] t.sessions[i]).binding)
                &&& t.sessions[i].binding.identity.owner.0@ == owner.0@
                &&& t.sessions[i].binding.creation_sequence == sequence
                &&& t.sessions[i].binding.policy == policy
                &&& !t.sessions[i].retiring
            }),
        sequence.0 > n ==> (r matches Ok(b) ==> {
            &&& sequence.0 == n + 1
            &&& room(t, owner.0@)
            &&& timely(t, clock)
            &&& access.after.create
            &&& b.identity.generation.0 == t.last_generation + 1
            &&& b.identity.owner.0@ == owner.0@
            &&& b.identity.authority.0@ == t.authority.0@
            &&& b.creation_sequence == sequence
            &&& b.policy == policy
            &&& b.limits == t.policy.session_limits
            &&& b.results == caps.supports(RESULT_DELIVERY)
            &&& b.control_limit == caps.control_limit
            &&& b.object_limit == caps.object_limit
            &&& after.last_generation == b.identity.generation.0
            &&& used_up_to(after, owner.0@, sequence.0)
            &&& after.sessions.len() == t.sessions.len() + 1
            &&& after.sessions.drop_last() == t.sessions
            &&& after.sessions.last().binding.agrees(b)
            &&& !after.sessions.last().retiring
            &&& after.sessions.last().entities == 0
            &&& after.sessions.last().operations == 0
            &&& after.scopes.len() == t.scopes.len() + 1
            &&& after.scopes.drop_last() == t.scopes
            &&& after.scopes.last().generation == b.identity.generation
            &&& after.scopes.last().scope.0 == 0
            &&& after.scopes.last().producer.0 == 0
            &&& after.scopes.last().parent is None
            &&& after.scopes.last().declared.0 == 0
            &&& after.scopes.last().last_entity == 0
            &&& after.scopes.last().seal is None
            &&& after.scopes.last().summary is None
            &&& !after.scopes.last().cancelled
            &&& !after.scopes.last().revoked
            &&& after.work == t.work
            &&& after.operations == t.operations
            &&& after.retirements == t.retirements
        }),
{
    lemma_used_up_to(t, owner.0@, n);
    lemma_owned(t.sessions, owner.0@);
    if r is Ok && sequence.0 <= n {
        let i = t.creation_at(owner.0@, sequence);
        table::lemma_index_where(t.sessions, sessions::created_as(owner.0@, sequence));
        assert(t.sessions[i].binding.identity.owner.0@ == owner.0@);
    }
    if r is Ok && sequence.0 > n {
        assert(after.sessions.drop_last() =~= t.sessions);
        assert(after.scopes.drop_last() =~= t.scopes);
        let p = store::is_owner(owner.0@);
        table::lemma_index_where(t.owners, p);
        let o = t.owner_at(owner.0@);
        assert(0 <= o < after.owners.len() && after.owners[o].owner.0@ == owner.0@
            && after.owners[o].last_creation == sequence.0);
        assert forall|j: int| 0 <= j < o implies (#[trigger] after.owners[j]).owner.0@
            != owner.0@ by {
            assert(after.owners[j] == t.owners[j]);
            assert(!p(t.owners[j]));
        }
    }
}

/// A session for which there is room is created, for an owner who may create it, in a connection that
/// has selected durable work.
pub proof fn law_session_with_room_is_created(
    t: Tables,
    owner: IdentityLabel,
    sequence: Id,
    policy: Policy,
    caps: Capabilities,
    access: Access,
    clock: ClockReading,
    r: Result<Binding, StoreError>,
    after: Tables,
    n: u64,
)
    requires
        used_up_to(t, owner.0@, n),
        sequence.0 == n + 1,
        sequence.valid(),
        policy.valid(),
        owner.valid(),
        t.authority.valid(),
        t.policy.session_limits.valid(),
        caps.valid(),
        caps.response.0 == 1,
        caps.supports(DURABLE_WORK),
        access.before.create,
        access.after.create,
        room(t, owner.0@),
        timely(t, clock),
        sessions::creation_decided(t, owner, sequence, policy, caps, access, clock, r, after),
    ensures
        r is Ok,
{
    lemma_used_up_to(t, owner.0@, n);
    lemma_owned(t.sessions, owner.0@);
}

/// A creation number that was used before is answered with its session while that serves its owner and
/// the connection can carry it; another policy under the same number is refused.
pub proof fn law_used_number_gives_its_session(
    t: Tables,
    i: int,
    owner: IdentityLabel,
    policy: Policy,
    caps: Capabilities,
    access: Access,
    clock: ClockReading,
    r: Result<Binding, StoreError>,
    after: Tables,
    n: u64,
)
    requires
        t.arranged(),
        used_up_to(t, owner.0@, n),
        0 <= i < t.sessions.len(),
        exchange::serves(t, i, t.sessions[i].binding.identity),
        t.sessions[i].binding.identity.owner.0@ == owner.0@,
        t.sessions[i].binding.creation_sequence.0 <= n,
        forall|j: int|
            0 <= j < i ==> (#[trigger] t.sessions[j]).binding.identity.owner.0@ != owner.0@
                || t.sessions[j].binding.creation_sequence != t.sessions[i].binding.creation_sequence,
        carries(t.sessions[i], caps),
        policy.valid(),
        caps.valid(),
        caps.response.0 == 1,
        caps.supports(DURABLE_WORK),
        access.before.create,
        sessions::creation_decided(
            t,
            owner,
            t.sessions[i].binding.creation_sequence,
            policy,
            caps,
            access,
            clock,
            r,
            after,
        ),
    ensures
        after == t,
        if policy == t.sessions[i].binding.policy {
            r matches Ok(b) && b.agrees(t.sessions[i].binding)
        } else {
            r matches Err(e) && e.fault() == Fault::Refused(ErrorCode::Conflict)
        },
{
    let sequence = t.sessions[i].binding.creation_sequence;
    lemma_used_up_to(t, owner.0@, n);
    accounts::lemma_named(t, i);
    let p = sessions::created_as(owner.0@, sequence);
    assert forall|j: int| 0 <= j < i implies !p(#[trigger] t.sessions[j]) by {}
    table::lemma_index_unique(t.sessions, p, i);
    let generation = t.sessions[i].binding.identity.generation;
    let q = store::is_scope(generation, Number(0));
    table::lemma_index_where(t.scopes, q);
    let k = t.scope_at(generation, Number(0));
    if k < t.scopes.len() {
        assert(q(t.scopes[k]));
    }
}

/// The connection can carry what the session has promised: its profile is that of the creation, and its
/// limits are no smaller than what was promised needs.
pub open spec fn carries(row: SessionRow, caps: Capabilities) -> bool {
    &&& caps.supports(RESULT_DELIVERY) == row.binding.results
    &&& row.required_control <= caps.control_limit.0
    &&& row.required_object <= caps.object_limit.0
}

/// An owner attaches to their own session, where it serves them and the connection can carry it.
pub proof fn law_owner_attaches_to_their_session(
    t: Tables,
    i: int,
    owner: Seq<char>,
    expected: SessionIdentity,
    caps: Capabilities,
    grants: Grants,
)
    requires
        t.arranged(),
        expected.valid(),
        caps.valid(),
        caps.response.0 == 1,
        caps.supports(DURABLE_WORK),
        0 <= i < t.sessions.len(),
        t.sessions[i].binding.identity.generation == expected.generation,
    ensures
        t.attach_fault(owner, expected, caps, grants) is None <==> {
            &&& grants.inspect
            &&& owner == expected.owner.0@
            &&& exchange::serves(t, i, expected)
            &&& carries(t.sessions[i], caps)
        },
        owner != expected.owner.0@ ==> t.attach_fault(owner, expected, caps, grants) == Some(
            Fault::Refused(ErrorCode::Unauthorized),
        ),
{
    exchange::law_session_serves_its_owner(t, i, expected, grants, Permission::Inspect);
    release::lemma_session_row(t, i);
}

/// A declaration is accepted exactly where the scope belongs to the owner and takes members: it is not
/// under a fence, not sealed, its members stand behind those before them, and the session has room.
pub proof fn law_open_scope_takes_members(
    t: Tables,
    i: int,
    k: int,
    d: Declaration,
    access: Access,
    clock: ClockReading,
)
    requires
        t.arranged(),
        0 <= i < t.sessions.len(),
        t.sessions[i].binding.identity.generation == d.identity.generation,
        release::scope_row(t, k, d.identity.generation, d.scope.0),
        !d.sealed,
    ensures
        ({
            let count = d.entity_ids@.len();
            let limits = t.sessions[i].binding.limits;
            t.declare_fault(d, access, clock) is None <==> {
                &&& t.scopes[k].producer.0 == 0
                &&& t.open_fault(d.identity.generation, d.scope) is None
                &&& t.scopes[k].seal is None
                &&& count > 0 ==> d.entity_ids@[0].0 > t.scopes[k].last_entity
                &&& t.sessions[i].entities + count <= limits.entities.0
                &&& t.sessions[i].operations + 1 <= limits.operations.0
                &&& timely(t, clock)
                &&& t.scopes[k].declared.0 + count <= MAX_NUMBER
                &&& count + (if t.work.len() > 0 {
                    t.work.last().row as int
                } else {
                    0
                }) <= MAX_NUMBER
                &&& access.after.declare
            }
        }),
{
    release::lemma_session_row(t, i);
    release::lemma_scope_row(t, k, d.identity.generation, d.scope.0);
}

/// A scope that takes members is sealed by a declaration over all of its members, where they can be
/// sealed and the receipt of a root that is sealed empty can be kept for as long as was promised.
pub proof fn law_open_scope_is_sealed(
    t: Tables,
    i: int,
    k: int,
    d: Declaration,
    plain: Declaration,
    access: Access,
    clock: ClockReading,
)
    requires
        t.arranged(),
        0 <= i < t.sessions.len(),
        t.sessions[i].binding.identity.generation == d.identity.generation,
        release::scope_row(t, k, d.identity.generation, d.scope.0),
        d.sealed,
        plain == (Declaration { sealed: false, ..d }),
        t.declare_fault(plain, access, clock) is None,
        commitments::sealable(
            d.identity,
            d.scope,
            t.scopes[k].producer,
            t.scopes[k].parent,
            Number((t.scopes[k].declared.0 + d.entity_ids@.len()) as u64),
            t.member_ids(d.identity.generation, d.scope) + d.entity_ids@,
        ),
        clock.utc_ms.0 + t.sessions[i].binding.policy.receipt_retention_ms.0 <= MAX_NUMBER,
    ensures
        t.declare_fault(d, access, clock) is None,
{
    release::lemma_session_row(t, i);
    release::lemma_scope_row(t, k, d.identity.generation, d.scope.0);
}

/// What a declaration leaves: its members in their order, each declared and nothing more, behind every
/// row there was; the scope with its new number of members; one more receipt. A scope that is sealed
/// without members is closed at once, any other stays open.
pub proof fn law_declared_members_wait(
    t: Tables,
    i: int,
    k: int,
    d: Declaration,
    access: Access,
    clock: ClockReading,
    after: Tables,
    receipt: OperationReceipt,
)
    requires
        t.well_formed(),
        0 <= i < t.sessions.len(),
        t.sessions[i].binding.identity.generation == d.identity.generation,
        release::scope_row(t, k, d.identity.generation, d.scope.0),
        t.declare_fault(d, access, clock) is None,
        t.declared(d, clock, after, receipt),
    ensures
        ({
            let count = d.entity_ids@.len() as int;
            let n = t.work.len() as int;
            &&& after.work.len() == n + count
            &&& forall|j: int| 0 <= j < n ==> #[trigger] after.work[j] == t.work[j]
            &&& forall|j: int|
                n <= j < n + count ==> {
                    let row = #[trigger] after.work[j];
                    &&& row.generation == d.identity.generation
                    &&& row.view.work.scope == d.scope
                    &&& row.view.work.entity == d.entity_ids@[j - n]
                    &&& row.view.work.producer.0 == 0
                    &&& row.view.state.0 == State::DECLARED
                    &&& row.view.attempt.0 == 0
                    &&& row.revision.0 == 1
                    &&& row.fence is None
                    &&& row.job is None
                    &&& row.view.input is None
                    &&& row.view.child is None
                    &&& row.view.manifest is None
                    &&& row.view.diagnostic is None
                    &&& row.view.terminal_at is None
                    &&& row.view.receipt_until is None
                }
        }),
        ({
            let count = d.entity_ids@.len();
            let new = after.scopes[k];
            &&& after.scopes.len() == t.scopes.len()
            &&& forall|s: int|
                0 <= s < t.scopes.len() && s != k ==> #[trigger] after.scopes[s] == t.scopes[s]
            &&& new.declared.0 == t.scopes[k].declared.0 + count
            &&& new.last_entity == if count > 0 {
                d.entity_ids@.last().0
            } else {
                t.scopes[k].last_entity
            }
            &&& new.seal is Some <==> d.sealed
            &&& new.cancelled == t.scopes[k].cancelled
            &&& new.parent == t.scopes[k].parent
            &&& new.summary is Some <==> d.sealed && new.declared.0 == 0
            &&& new.summary matches Some(s) ==> {
                &&& s.closed_at == clock.utc_ms
                &&& s.declared.0 == 0
                &&& conduct::counts_are(s.counts, Seq::empty())
                &&& s.scope == d.scope
            }
            &&& after.sessions[i].entities == t.sessions[i].entities + count
            &&& after.sessions[i].operations == t.sessions[i].operations + 1
            &&& after.operations.len() == t.operations.len() + 1
            &&& after.operations.drop_last() == t.operations
            &&& after.greatest == clock.utc_ms.0
            &&& receipt.operation == d.operation
            &&& receipt.body matches Outcome::Declared { accepted_count, declared, seal, .. }
                && accepted_count.0 == count && declared == new.declared && seal == new.seal
        }),
{
    release::lemma_session_row(t, i);
    release::lemma_scope_row(t, k, d.identity.generation, d.scope.0);
    assert(store::closed_sealed(t.scopes[k]));
    assert(after.operations.drop_last() =~= t.operations);
}

/// What a fence does to work. Work that is over stays as it is. Work that no fence holds, under a scope
/// that takes changes, is held by this one: it ends at once as cancelled or skipped, with the time to
/// keep its receipt from then on, or where a scope below it is open it is cancelling until that closes.
/// Work that a fence holds keeps it; a fence for the other end is refused.
pub proof fn law_fence_takes_hold(
    t: Tables,
    j: int,
    at: release::Place,
    skip: bool,
    operation: OperationId,
    now: Number,
    retention: Duration,
)
    requires
        t.well_formed(),
        0 <= j < t.work.len(),
        release::placed(t, j, at),
        retention.valid(),
        now.0 + retention.0 <= MAX_NUMBER,
        t.greatest <= now.0,
        t.work[j].revision.0 < MAX_NUMBER,
    ensures
        ({
            let row = t.work[j];
            let end = if skip {
                State::SKIPPED
            } else {
                State::CANCELLED
            };
            let result = t.fence_work(row.generation, row, skip, operation, now, retention);
            let new = result->Ok_0;
            if conduct::over(row) {
                result == Ok::<WorkRow, Fault>(row)
            } else if t.open_fault(row.generation, row.view.work.scope) is Some {
                result is Err
            } else if row.fence is Some {
                if row.fence->0.outcome.0 == end {
                    result == Ok::<WorkRow, Fault>(row)
                } else {
                    result == Err::<WorkRow, Fault>(Fault::Refused(ErrorCode::Cancelled))
                }
            } else {
                &&& result is Ok
                &&& new.row == row.row && new.generation == row.generation
                &&& new.revision.0 == row.revision.0 + 1
                &&& new.fence matches Some(f) && f.outcome.0 == end && f.operation == operation
                &&& new.view.work == row.view.work && new.view.attempt == row.view.attempt
                    && new.view.input == row.view.input && new.view.deadline == row.view.deadline
                    && new.view.child == row.view.child && new.view.admitted_at
                    == row.view.admitted_at
                &&& new.view.manifest is None && new.view.output_until is None
                &&& if row.view.child is Some && t.scopes[at.child].summary is None {
                    &&& new.view.state.0 == State::CANCELLING
                    &&& new.view.terminal_at is None
                    &&& new.job == row.job
                } else {
                    &&& new.view.state.0 == end
                    &&& new.view.terminal_at == Some(now)
                    &&& new.view.receipt_until matches Some(until) && until.0 == now.0 + retention.0
                    &&& new.job is Some == row.job is Some
                    &&& row.view.admitted_at is Some && row.job is Some ==> {
                        &&& !new.job->0.executor_live
                        &&& new.job->0.lease_until is None
                        &&& new.job->0.input_live == row.job->0.input_live
                        &&& new.job->0.outputs_live == row.job->0.outputs_live
                    }
                }
            }
        }),
{
    let row = t.work[j];
    accounts::lemma_profiled(t, j);
    if row.view.child is Some {
        release::lemma_scope_row(t, at.child, row.generation, (row.view.child->0).scope.0);
    }
    if !conduct::over(row) {
        let end = State(settlement::fence_end(skip));
        let until = store::later(now, retention)->0;
        let ended = settlement::ended_view(row.view, end, None, now, until);
        assert(ended.rule());
        assert(ended.valid());
    }
}

/// The receipt of a fence tells whether it came in time and what state it left the work in.
pub proof fn law_fence_receipt_tells_the_state(
    t: Tables,
    i: int,
    j: int,
    identity: SessionIdentity,
    key: WorkKey,
    skip: bool,
    operation: OperationId,
    clock: ClockReading,
    after: Tables,
    receipt: OperationReceipt,
)
    requires
        t.arranged(),
        0 <= i < t.sessions.len(),
        t.sessions[i].binding.identity.generation == identity.generation,
        exchange::keyed(t, j, identity.generation, key),
        t.sessions[i].operations < t.sessions[i].binding.limits.operations.0,
        t.work_fenced(identity, key, skip, operation, clock, after, receipt),
    ensures
        ({
            let state = after.work[j].view.state;
            let timing: int = if conduct::over(t.work[j]) {
                1
            } else {
                0
            };
            &&& receipt.operation == operation
            &&& match receipt.body {
                Outcome::Cancelled { work, accepted_at, disposition, state_at_commit } => !skip
                    && work == key && accepted_at == clock.utc_ms && state_at_commit == state
                    && disposition.0 == timing,
                Outcome::Skipped { work, accepted_at, disposition, state_at_commit } => skip && work
                    == key && accepted_at == clock.utc_ms && state_at_commit == state
                    && disposition.0 == timing,
                _ => false,
            }
            &&& forall|n: int|
                0 <= n < t.work.len() && n != j ==> #[trigger] after.work[n] == t.work[n]
            &&& after.scopes == t.scopes
            &&& after.operations.len() == t.operations.len() + 1
            &&& after.sessions[i].operations == t.sessions[i].operations + 1
            &&& after.sessions[i].entities == t.sessions[i].entities
            &&& after.greatest == clock.utc_ms.0
        }),
{
    exchange::lemma_keyed(t, j, identity.generation, key);
    release::lemma_session_row(t, i);
}

/// A scope may be cancelled by whoever may cancel, while there is room for the receipt and it can be
/// kept as long as promised. Then its membership is frozen and nothing else changes but the receipt.
pub proof fn law_scope_may_be_cancelled(
    t: Tables,
    i: int,
    k: int,
    generation: Id,
    scope: Number,
    access: Access,
    clock: ClockReading,
)
    requires
        t.arranged(),
        0 <= i < t.sessions.len(),
        t.sessions[i].binding.identity.generation == generation,
        release::scope_row(t, k, generation, scope.0),
    ensures
        t.scope_fence_fault(generation, scope, access, clock) is None <==> {
            &&& t.sessions[i].operations + 1 <= t.sessions[i].binding.limits.operations.0
            &&& timely(t, clock)
            &&& clock.utc_ms.0 + t.sessions[i].binding.policy.receipt_retention_ms.0 <= MAX_NUMBER
            &&& access.after.cancel
        },
        ({
            let after = t.with_frozen(k, false);
            &&& after.scopes[k].cancelled
            &&& after.scopes[k].revoked == t.scopes[k].revoked
            &&& after.scopes[k].seal == t.scopes[k].seal
            &&& after.scopes[k].summary == t.scopes[k].summary
            &&& after.work == t.work
            &&& forall|s: int|
                0 <= s < t.scopes.len() && s != k ==> #[trigger] after.scopes[s] == t.scopes[s]
        }),
{
    release::lemma_session_row(t, i);
    release::lemma_scope_row(t, k, generation, scope.0);
}

/// A session may be revoked by whoever may revoke, whether it serves its owner or not. Once it is, it
/// serves nobody and nothing changes under its root.
pub proof fn law_revoked_session_serves_nobody(
    t: Tables,
    i: int,
    k: int,
    identity: SessionIdentity,
    access: Access,
    clock: ClockReading,
    r: Result<(), StoreError>,
    after: Tables,
    grants: Grants,
    permission: Permission,
)
    requires
        t.arranged(),
        identity.valid(),
        0 <= i < t.sessions.len(),
        t.sessions[i].binding.identity.generation == identity.generation,
        release::scope_row(t, k, identity.generation, 0),
        settlement::revocation_decided(t, identity, access, clock, r, after),
    ensures
        r is Ok <==> {
            &&& access.before.revoke
            &&& access.after.revoke
            &&& t.authority.0@ == identity.authority.0@
            &&& t.sessions[i].binding.identity.owner.0@ == identity.owner.0@
            &&& timely(t, clock)
            &&& clock.utc_ms.0 + t.sessions[i].binding.policy.receipt_retention_ms.0 <= MAX_NUMBER
        },
        r is Err ==> after == t,
        r is Ok ==> {
            &&& after.session_fault(identity, grants, permission) == Some(
                Fault::Refused(ErrorCode::Unauthorized),
            )
            &&& after.open_fault(identity.generation, Number(0)) == Some(
                Fault::Refused(ErrorCode::Cancelled),
            )
            &&& after.work == t.work
            &&& after.sessions == t.sessions
        },
{
    release::lemma_session_row(t, i);
    release::lemma_scope_row(t, k, identity.generation, 0);
    if r is Ok {
        let p = store::is_scope(identity.generation, Number(0));
        table::lemma_index_alike(t.scopes, p, after.scopes);
    }
}

/// The work of a scope may be changed exactly while no fence is over it: neither the scope nor one above
/// it is cancelled, and no work above it is being cancelled or was skipped.
pub proof fn law_fences_lie_over_what_is_below(t: Tables, k: int, m: int)
    requires
        t.arranged(),
        0 <= k < t.scopes.len(),
        t.scopes[k].parent matches Some(p) ==> p.scope.0 < t.scopes[k].scope.0 && exchange::keyed(
            t,
            m,
            t.scopes[k].generation,
            p,
        ),
    ensures
        t.open_fault(t.scopes[k].generation, t.scopes[k].scope) is None <==> {
            &&& !t.scopes[k].cancelled
            &&& t.scopes[k].parent matches Some(p) ==> {
                &&& t.work[m].view.state.0 != State::CANCELLING
                &&& t.work[m].view.state.0 != State::CANCELLED
                &&& t.work[m].view.state.0 != State::SKIPPED
                &&& t.open_fault(t.scopes[k].generation, p.scope) is None
            }
        },
{
    release::lemma_scope_row(t, k, t.scopes[k].generation, t.scopes[k].scope.0);
    if t.scopes[k].parent is Some {
        exchange::lemma_keyed(t, m, t.scopes[k].generation, t.scopes[k].parent->0);
    }
}

} // verus!
