//! What the authority promises across its transitions: that a scope which was sealed, closed or
//! cancelled stays so with the same seal and summary, that numbers add up, and what is answered to
//! ordinary requests.

use super::super::commitments::{self, SessionIdentity};
use super::super::error::{ErrorCode, MAX_NUMBER};
use super::super::labels::{Digest, IdentityLabel, OperationId};
use super::super::negotiation::Capabilities;
use super::super::numbers::{Disposition, Id, Number, Producer, State};
use super::super::records::{OperationReceipt, Outcome, Policy, WorkKey};
use super::super::wire::Wire;
use super::accounts;
use super::reconcile::{self, Cursor, ReconcileProgress};
use super::retirement::{self, PayloadStatus};
use super::scopes::Declaration;
use super::settlement;
use super::store::{
    self, Access, Binding, ClockReading, Fault, Grants, OperationRow, Permission, ScopeRow, StoreError,
    Tables, WorkRow,
};
use super::table;
use vstd::prelude::*;

verus! {

/// A scope of a session that goes on has declared as many members as it has.
pub proof fn law_declared_counts_members(t: Tables, generation: Id, scope: Number)
    requires
        t.well_formed(),
        t.active(generation),
        t.scope_at(generation, scope) < t.scopes.len(),
    ensures
        t.scopes[t.scope_at(generation, scope)].declared.0 == t.member_ids(generation, scope).len(),
{
    table::lemma_index_where(t.scopes, store::is_scope(generation, scope));
    accounts::lemma_counted(t, t.scope_at(generation, scope));
}

/// The receipt of a declaration says how many members the scope then has, those that it had and
/// those that were declared; a seal is over all of them.
pub proof fn law_declaration_counts_members(
    t: Tables,
    d: Declaration,
    access: Access,
    clock: ClockReading,
    after: Tables,
    receipt: OperationReceipt,
)
    requires
        t.well_formed(),
        t.declare_entry_fault(d, access.before) is None,
        t.declare_fault(d, access, clock) is None,
        t.declared(d, clock, after, receipt),
    ensures
        ({
            let before = t.member_ids(d.identity.generation, d.scope);
            let row = t.scopes[t.scope_at(d.identity.generation, d.scope)];
            &&& receipt.body matches Outcome::Declared { declared, seal, .. } && declared.0
                == before.len() + d.entity_ids@.len() && (d.sealed ==> seal is Some && (
            seal->0).0@ == commitments::seal_digest(
                d.identity,
                d.scope,
                row.producer,
                row.parent,
                before + d.entity_ids@,
            ))
            &&& after.member_ids(d.identity.generation, d.scope) == before + d.entity_ids@
        }),
{
    law_declared_counts_members(t, d.identity.generation, d.scope);
    super::scopes::law_declaration_extends_membership(t, d, clock, after, receipt);
}

/// A summary that closed a scope is a valid one of that scope: it counts as many ends as it says that
/// members were declared.
pub proof fn law_summary_adds_up(t: Tables, k: int)
    requires
        t.well_formed(),
        0 <= k < t.scopes.len(),
    ensures
        t.scopes[k].summary matches Some(s) ==> s.scope == t.scopes[k].scope && s.valid()
            && s.counts.sum() == s.declared.0,
{
    accounts::lemma_counted(t, k);
}

/// Whoever may inspect a session can see its work: every retained view obeys the rules of the
/// protocol and of the profiles that the session selected.
pub proof fn law_retained_view_is_shown(
    t: Tables,
    identity: SessionIdentity,
    key: WorkKey,
    grants: Grants,
)
    requires
        t.well_formed(),
        t.session_fault(identity, grants, Permission::Inspect) is None,
        t.work_of(identity.generation, key) is Ok,
    ensures
        ({
            let view = t.work[t.work_of(identity.generation, key)->Ok_0].view;
            let results = t.sessions[t.session_at(identity.generation)].binding.results;
            view.valid() && (view.state.0 == State::SUCCEEDED ==> (view.manifest is Some)
                == results)
        }),
{
    table::lemma_index_where(
        t.work,
        store::is_work(identity.generation, key.scope, key.entity),
    );
    accounts::lemma_profiled(t, t.work_of(identity.generation, key)->Ok_0);
}

/// A page of a scope lists members of its producer.
pub proof fn law_page_lists_members_of_the_producer(
    t: Tables,
    generation: Id,
    scope: Number,
    after: Number,
    i: int,
)
    requires
        t.well_formed(),
        t.scope_at(generation, scope) < t.scopes.len(),
        0 <= i < t.page_rows(generation, scope, after).len(),
    ensures
        t.page_rows(generation, scope, after)[i].view.work.producer == t.scopes[t.scope_at(
            generation,
            scope,
        )].producer,
{
    let j = table::lemma_rows_where_from(
        t.work,
        super::scopes::in_page(generation, scope, after),
        i,
    );
    accounts::lemma_profiled(t, j);
}

/// A checkpoint by the seal of a scope is answered with that seal, and with as many ends as there are
/// members.
pub proof fn law_checkpoint_answers_by_its_seal(
    t: Tables,
    generation: Id,
    scope: Number,
    expected: Digest,
)
    requires
        t.well_formed(),
        t.scope_at(generation, scope) < t.scopes.len(),
        t.scopes[t.scope_at(generation, scope)].seal matches Some(seal) && seal.0@ == expected.0@,
    ensures
        t.scopes[t.scope_at(generation, scope)].summary matches Some(s) ==> s.scope == scope
            && s.seal.0@ == expected.0@ && s.counts.sum() == s.declared.0,
{
    table::lemma_index_where(t.scopes, store::is_scope(generation, scope));
    accounts::lemma_counted(t, t.scope_at(generation, scope));
}

/// Work that no fence lies on or over can be fenced, as long as there is room for the receipt and the
/// times can be represented. Work that has ended stays as it is; other work ends at once, or once the
/// scope that was opened for it has closed.
pub proof fn law_fence_on_open_work_is_accepted(
    t: Tables,
    identity: SessionIdentity,
    key: WorkKey,
    skip: bool,
    operation: OperationId,
    access: Access,
    clock: ClockReading,
)
    requires
        t.well_formed(),
        t.session_fault(identity, access.before, settlement::fence_permission(skip)) is None,
        t.work_of(identity.generation, key) is Ok,
        ({
            let row = t.work[t.work_of(identity.generation, key)->Ok_0];
            let session = t.sessions[t.session_at(identity.generation)];
            !row.view.state.terminal() ==> {
                &&& row.fence is None
                &&& row.revision.0 < MAX_NUMBER
                &&& t.open_fault(identity.generation, key.scope) is None
                &&& store::later(clock.utc_ms, session.binding.policy.receipt_retention_ms) is Some
            }
        }),
        !t.operations_full(identity.generation),
        t.safe(clock),
        access.after.allows(settlement::fence_permission(skip)),
    ensures
        t.work_fence_fault(identity.generation, key, skip, operation, access, clock) is None,
        ({
            let row = t.work[t.work_of(identity.generation, key)->Ok_0];
            let session = t.sessions[t.session_at(identity.generation)];
            let fenced = t.fence_work(
                identity.generation,
                row,
                skip,
                operation,
                clock.utc_ms,
                session.binding.policy.receipt_retention_ms,
            );
            let child = t.scopes[t.scope_at(
                identity.generation,
                Number((row.view.child->0).scope.0),
            )];
            &&& fenced is Ok
            &&& if row.view.state.terminal() {
                settlement::fence_disposition(row) == Disposition(1) && fenced->Ok_0 == row
            } else {
                &&& settlement::fence_disposition(row) == Disposition(0)
                &&& fenced->Ok_0.view.state == State(
                    if row.view.child is Some && child.summary is None {
                        State::CANCELLING
                    } else {
                        settlement::fence_end(skip)
                    },
                )
            }
        }),
{
    let j = t.work_of(identity.generation, key)->Ok_0;
    let row = t.work[j];
    let i = t.session_at(identity.generation);
    let retention = t.sessions[i].binding.policy.receipt_retention_ms;
    table::lemma_index_where(
        t.work,
        store::is_work(identity.generation, key.scope, key.entity),
    );
    table::lemma_index_where(t.sessions, store::is_session(identity.generation));
    accounts::lemma_profiled(t, j);
    accounts::lemma_named(t, i);
    if !row.view.state.terminal() {
        let end = State(settlement::fence_end(skip));
        let until = store::later(clock.utc_ms, retention)->0;
        let ended = settlement::ended_view(row.view, end, None, clock.utc_ms, until);
        assert(ended.rule());
        assert(ended.valid());
    }
}

/// What is kept of a scope, as long as its session goes on: that it was cancelled, its seal, and
/// once it is sealed the summary that closed it.
pub open spec fn scope_kept(t: Tables, after: Tables, generation: Id, scope: Number) -> bool {
    let k = t.scope_at(generation, scope);
    let m = after.scope_at(generation, scope);
    (after.active(generation) || after.live(generation)) && k < t.scopes.len() ==> m < after.scopes.len() && row_kept(
        t.scopes[k],
        after.scopes[m],
    )
}

pub open spec fn row_kept(row: ScopeRow, after: ScopeRow) -> bool {
    &&& row.generation == after.generation
    &&& row.scope == after.scope
    &&& row.cancelled ==> after.cancelled
    &&& row.seal is Some ==> after.seal == row.seal && (row.summary is Some ==> after.summary
        == row.summary)
}

/// What is kept of all scopes, and that no session which retires comes back.
pub open spec fn scopes_kept(t: Tables, after: Tables) -> bool {
    &&& t.last_generation <= after.last_generation
    &&& forall|generation: Id|
        #[trigger] after.active(generation) && generation.0 <= t.last_generation ==> t.active(
            generation,
        )
    &&& forall|generation: Id|
        #[trigger] after.live(generation) && generation.0 <= t.last_generation ==> t.live(
            generation,
        )
    &&& forall|generation: Id, scope: Number| #[trigger] scope_kept(t, after, generation, scope)
}

/// What two transitions keep one after the other, they keep together.
pub proof fn law_keeping_is_transitive(a: Tables, b: Tables, c: Tables)
    requires
        a.well_formed(),
        scopes_kept(a, b),
        scopes_kept(b, c),
    ensures
        scopes_kept(a, c),
{
    assert forall|generation: Id, scope: Number| #[trigger]
        scope_kept(a, c, generation, scope) by {
        let k = a.scope_at(generation, scope);
        table::lemma_index_where(a.scopes, store::is_scope(generation, scope));
        assert(scope_kept(a, b, generation, scope));
        assert(scope_kept(b, c, generation, scope));
        if k < a.scopes.len() && (c.active(generation) || c.live(generation)) {
            assert(a.scopes[k].generation.0 <= a.last_generation);
            assert(b.active(generation) || b.live(generation));
        }
    }
}

/// A checkpoint that was answered with a summary is answered with the same summary ever after: the
/// scope is found again, sealed and closed as before.
pub proof fn law_summary_never_changes(t: Tables, after: Tables, generation: Id, scope: Number)
    requires
        scopes_kept(t, after),
        after.active(generation),
        t.scope_at(generation, scope) < t.scopes.len(),
        t.scopes[t.scope_at(generation, scope)].seal is Some,
        t.scopes[t.scope_at(generation, scope)].summary is Some,
    ensures
        after.scope_at(generation, scope) < after.scopes.len(),
        after.scopes[after.scope_at(generation, scope)].seal == t.scopes[t.scope_at(
            generation,
            scope,
        )].seal,
        after.scopes[after.scope_at(generation, scope)].summary == t.scopes[t.scope_at(
            generation,
            scope,
        )].summary,
{
    assert(scope_kept(t, after, generation, scope));
}

/// A cursor that follows the tables follows them through every transition that keeps the scopes.
pub proof fn law_cursor_keeps_following(t: Tables, after: Tables, cursor: Cursor)
    requires
        scopes_kept(t, after),
        cursor.follows(t),
    ensures
        cursor.follows(after),
{
    let scan = cursor.scan->0;
    assert(scope_kept(t, after, scan.identity.generation, scan.scope));
}

/// Rows that stay where they are, each keeping what a scope keeps.
proof fn lemma_rows_kept(t: Tables, after: Tables)
    requires
        t.last_generation <= after.last_generation,
        forall|generation: Id|
            #[trigger] after.active(generation) && generation.0 <= t.last_generation ==> t.active(
                generation,
            ),
        forall|generation: Id|
            #[trigger] after.live(generation) && generation.0 <= t.last_generation ==> t.live(
                generation,
            ),
        after.scopes.len() >= t.scopes.len(),
        forall|k: int|
            0 <= k < t.scopes.len() ==> row_kept(#[trigger] t.scopes[k], after.scopes[k]),
    ensures
        scopes_kept(t, after),
{
    assert forall|generation: Id, scope: Number| #[trigger]
        scope_kept(t, after, generation, scope) by {
        let p = store::is_scope(generation, scope);
        let k = t.scope_at(generation, scope);
        table::lemma_index_where(t.scopes, p);
        if k < t.scopes.len() {
            assert forall|j: int| 0 <= j < k implies !p(#[trigger] after.scopes[j]) by {
                assert(!p(t.scopes[j]));
            }
            table::lemma_index_unique(after.scopes, p, k);
        }
    }
}

/// The same, where the sessions stay what they are.
proof fn lemma_kept(t: Tables, after: Tables)
    requires
        t.last_generation == after.last_generation,
        accounts::same_sessions(t, after),
        forall|generation: Id| #[trigger]
            t.retirement_at(generation) < t.retirements.len() ==> after.retirement_at(generation)
                < after.retirements.len(),
        after.scopes.len() == t.scopes.len(),
        forall|k: int|
            0 <= k < t.scopes.len() ==> row_kept(#[trigger] t.scopes[k], after.scopes[k]),
    ensures
        scopes_kept(t, after),
{
    assert forall|generation: Id| #[trigger] after.active(generation) implies t.active(
        generation,
    ) by {
        accounts::lemma_session_kept(t, after, generation);
    }
    assert forall|generation: Id| #[trigger] after.live(generation) implies t.live(
        generation,
    ) by {
        accounts::lemma_session_kept(t, after, generation);
        if t.retirement_at(generation) < t.retirements.len() {
            assert(after.retirement_at(generation) < after.retirements.len());
        }
    }
    lemma_rows_kept(t, after);
}

/// A new session changes no scope that is there.
pub proof fn law_creation_keeps_scopes(
    t: Tables,
    owner: IdentityLabel,
    sequence: Id,
    policy: Policy,
    caps: Capabilities,
    clock: ClockReading,
    after: Tables,
    binding: Binding,
)
    requires
        t.last_generation < MAX_NUMBER,
        t.created(owner, sequence, policy, caps, clock, after, binding),
    ensures
        scopes_kept(t, after),
{
    let session = after.sessions.last();
    assert forall|generation: Id| #[trigger]
        after.active(generation) && generation.0 <= t.last_generation implies t.active(
        generation,
    ) by {
        accounts::lemma_old_session(t, after, session, generation);
    }
    assert forall|generation: Id| #[trigger]
        after.live(generation) && generation.0 <= t.last_generation implies t.live(generation) by {
        accounts::lemma_old_session(t, after, session, generation);
    }
    lemma_rows_kept(t, after);
}

/// A declaration changes no scope that is sealed.
pub proof fn law_declaration_keeps_scopes(
    t: Tables,
    d: Declaration,
    access: Access,
    clock: ClockReading,
    after: Tables,
    receipt: OperationReceipt,
)
    requires
        t.session_at(d.identity.generation) < t.sessions.len(),
        t.declare_fault(d, access, clock) is None,
        t.declared(d, clock, after, receipt),
    ensures
        scopes_kept(t, after),
{
    table::lemma_index_where(t.sessions, store::is_session(d.identity.generation));
    table::lemma_index_where(t.scopes, store::is_scope(d.identity.generation, d.scope));
    lemma_kept(t, after);
}

/// A fence on work changes no scope.
pub proof fn law_fence_keeps_scopes(
    t: Tables,
    identity: SessionIdentity,
    key: WorkKey,
    skip: bool,
    operation: OperationId,
    clock: ClockReading,
    after: Tables,
    receipt: OperationReceipt,
)
    requires
        t.session_at(identity.generation) < t.sessions.len(),
        t.work_fenced(identity, key, skip, operation, clock, after, receipt),
    ensures
        scopes_kept(t, after),
{
    table::lemma_index_where(t.sessions, store::is_session(identity.generation));
    lemma_kept(t, after);
}

/// Cancelling a scope, or revoking a session, leaves seals and summaries as they are.
pub proof fn law_freezing_keeps_scopes(
    t: Tables,
    k: int,
    revoke: bool,
    generation: Id,
    at: Number,
    kept: OperationRow,
)
    requires
        0 <= k < t.scopes.len(),
        t.session_at(generation) < t.sessions.len(),
    ensures
        scopes_kept(t, Tables { greatest: at.0, ..t.with_frozen(k, revoke) }),
        scopes_kept(t, t.with_frozen(k, revoke).with_operation(generation, at, kept)),
{
    table::lemma_index_where(t.sessions, store::is_session(generation));
    lemma_kept(t, Tables { greatest: at.0, ..t.with_frozen(k, revoke) });
    lemma_kept(t, t.with_frozen(k, revoke).with_operation(generation, at, kept));
}

/// A pass over a scope seals and closes it once.
proof fn lemma_scope_step_keeps_scopes(
    t: Tables,
    cursor: Cursor,
    identity: SessionIdentity,
    limit: nat,
    clock: ClockReading,
)
    ensures
        t.scope_step(cursor, identity, limit, clock) matches Ok(o) ==> scopes_kept(t, o.tables),
{
    reveal(Tables::advance);
    lemma_kept(t, t);
    match t.scope_step(cursor, identity, limit, clock) {
        Err(_) => {},
        Ok(o) => {
            if o.tables != t {
                let scan = if cursor.scan is Some {
                    cursor.scan->0
                } else {
                    t.pick(cursor.scope_before, identity)->Ok_0.2->0
                };
                let k = t.scope_at(scan.identity.generation, scan.scope);
                table::lemma_index_where(
                    t.scopes,
                    store::is_scope(scan.identity.generation, scan.scope),
                );
                let step = t.advance(scan, limit, clock.utc_ms)->Ok_0.0;
                let freeze = cursor.scan is None && t.pick(cursor.scope_before, identity)->Ok_0.1;
                assert(o.tables == t.advanced(k, freeze, step, clock.utc_ms));
                assert(row_kept(t.scopes[k], o.tables.scopes[k]));
                lemma_kept(t, o.tables);
            }
        },
    }
}

/// Reconciliation seals and closes a scope once, and changes nothing about one that is closed.
pub proof fn law_reconciliation_keeps_scopes(
    t: Tables,
    cursor: Cursor,
    limit: nat,
    work_clock: ClockReading,
    scope_clock: ClockReading,
    r: Result<ReconcileProgress, StoreError>,
    after: Tables,
    next: Cursor,
)
    requires
        t.well_formed(),
        t.reconciled(cursor, limit, work_clock, scope_clock, r, after, next),
    ensures
        scopes_kept(t, after),
{
    lemma_kept(t, t);
    if after != t {
        let now = work_clock.utc_ms;
        let rows = table::latest(t.work, t.visitable(cursor.work_before), limit);
        let bound = Cursor {
            work_before: if rows.len() < limit {
                None
            } else {
                Some(t.work[rows.last()].row)
            },
            binding: Some(t.store_id),
            ..cursor
        };
        let (passed, settled) = choose|passed: Tables, settled: nat|
            {
                &&& #[trigger] t.work_passed(rows, now, settled, passed)
                &&& passed.scopes_reconciled(
                    bound,
                    limit,
                    scope_clock,
                    rows.len(),
                    settled,
                    r,
                    after,
                    next,
                )
            };
        let mid = choose|mid: Tables|
            {
                &&& #[trigger] t.settle_pass(rows, now, mid, settled)
                &&& passed == if settled > 0 {
                    Tables { greatest: now.0, ..mid }
                } else {
                    mid
                }
            };
        reconcile::lemma_pass_keeps_scopes(t, rows, now, mid, settled);
        lemma_kept(t, passed);
        lemma_kept(passed, passed);
        let identity = choose|identity: SessionIdentity|
            {
                &&& #[trigger] passed.names_next(bound.scope_before, identity)
                &&& match passed.scope_step(bound, identity, limit, scope_clock) {
                    Err(fault) => after == passed,
                    Ok(o) => after == o.tables,
                }
            };
        lemma_scope_step_keeps_scopes(passed, bound, identity, limit, scope_clock);
        law_keeping_is_transitive(t, passed, after);
    }
}

/// Releasing what ended work holds changes work and the clock only.
proof fn lemma_reclaiming_keeps_rows(
    t: Tables,
    before: Option<u64>,
    clocks: Seq<ClockReading>,
    gone: Seq<PayloadStatus>,
)
    ensures
        ({
            let after = t.reclaim_run(before, clocks, gone).tables;
            after == (Tables { work: after.work, greatest: after.greatest, ..t })
        }),
    decreases clocks.len(),
{
    if clocks.len() > 0 {
        lemma_reclaiming_keeps_rows(t, before, clocks.drop_last(), gone);
        reveal(Tables::reclaim_step);
    }
}

/// Releasing what ended work holds changes no scope.
pub proof fn law_reclaiming_keeps_scopes(
    t: Tables,
    before: Option<u64>,
    clocks: Seq<ClockReading>,
    gone: Seq<PayloadStatus>,
)
    ensures
        scopes_kept(t, t.reclaim_run(before, clocks, gone).tables),
{
    lemma_reclaiming_keeps_rows(t, before, clocks, gone);
    lemma_kept(t, t.reclaim_run(before, clocks, gone).tables);
}

/// The intent to retire a session leaves the scopes as they are.
pub proof fn law_intent_keeps_scopes(
    t: Tables,
    generation: Id,
    now: Number,
    evidence: super::evidence::Proof,
)
    requires
        t.session_at(generation) < t.sessions.len(),
    ensures
        scopes_kept(t, t.with_intent(generation, now, evidence)),
{
    let after = t.with_intent(generation, now, evidence);
    table::lemma_index_where(t.sessions, store::is_session(generation));
    assert forall|other: Id| #[trigger]
        t.retirement_at(other) < t.retirements.len() implies after.retirement_at(other)
        < after.retirements.len() by {
        let p = store::is_retirement(other);
        let k = t.retirement_at(other);
        table::lemma_index_where(t.retirements, p);
        assert forall|j: int| 0 <= j < k implies !p(#[trigger] after.retirements[j]) by {
            assert(after.retirements[j] == t.retirements[j]);
            assert(!p(t.retirements[j]));
        }
        assert(after.retirements[k] == t.retirements[k]);
        table::lemma_index_unique(after.retirements, p, k);
    }
    lemma_kept(t, after);
}

/// The deletion of one session changes nothing of another.
pub proof fn law_deletion_keeps_scopes(
    t: Tables,
    generation: Id,
    clock: ClockReading,
    gone: Seq<PayloadStatus>,
)
    requires
        t.well_formed(),
    ensures
        t.retire_step(generation, clock, gone) matches Ok(done) ==> scopes_kept(t, done.0),
{
    reveal(Tables::retire_step);
    lemma_kept(t, t);
    match t.retire_step(generation, clock, gone) {
        Err(_) => {},
        Ok(done) => {
            let after = done.0;
            let i = t.session_at(generation);
            table::lemma_index_where(t.sessions, store::is_session(generation));
            if i < t.sessions.len() && t.sessions[i].retiring {
                assert(!t.active(generation));
                assert forall|other: Id| #[trigger] after.active(other) implies t.active(other)
                    && other != generation by {
                    if after.sessions != t.sessions {
                        if other == generation {
                            accounts::lemma_session_gone(t, i);
                        } else {
                            table::lemma_found_after_removal(t.sessions, i, store::is_session(other));
                        }
                    }
                }
                assert forall|other: Id| #[trigger] after.live(other) implies t.live(other)
                    && other != generation by {
                    if after.sessions != t.sessions {
                        if other == generation {
                            accounts::lemma_session_gone(t, i);
                        } else {
                            let r = t.retirement_at(generation);
                            table::lemma_index_where(
                                t.retirements,
                                store::is_retirement(generation),
                            );
                            table::lemma_found_after_removal(t.sessions, i, store::is_session(other));
                            table::lemma_found_after_removal(
                                t.retirements,
                                r,
                                store::is_retirement(other),
                            );
                        }
                    }
                }
                assert forall|other: Id, scope: Number| #[trigger]
                    scope_kept(t, after, other, scope) by {
                    if after.active(other) || after.live(other) {
                        let p = store::is_scope(other, scope);
                        table::lemma_index_where(t.scopes, p);
                        let child = retirement::last_child_scope(t.scopes, generation);
                        let root = t.scope_at(generation, Number(0));
                        table::lemma_index_where(t.scopes, store::is_scope(generation, Number(0)));
                        retirement::lemma_last_child_scope(t.scopes, generation);
                        if after.scopes != t.scopes {
                            if done.1 is Finished {
                                table::lemma_found_after_removal(t.scopes, root, p);
                            } else {
                                table::lemma_found_after_removal(t.scopes, child, p);
                            }
                        }
                    }
                }
            }
        },
    }
}

/// The scope is there, and the work that it and each of its ancestors was opened for, up to the given
/// ancestor.
pub open spec fn below(t: Tables, generation: Id, scope: Number, ancestor: Number) -> bool
    decreases scope.0,
{
    let k = t.scope_at(generation, scope);
    &&& k < t.scopes.len()
    &&& scope == ancestor || (t.scopes[k].parent matches Some(parent) && parent.scope.0 < scope.0
        && t.work_of(generation, parent) is Ok && below(t, generation, parent.scope, ancestor))
}

/// A scope that was cancelled refuses every change at once, and so does every scope below it.
pub proof fn law_cancelled_scope_refuses_changes(
    t: Tables,
    generation: Id,
    ancestor: Number,
    scope: Number,
)
    requires
        t.scopes[t.scope_at(generation, ancestor)].cancelled,
        below(t, generation, scope, ancestor),
    ensures
        t.open_fault(generation, scope) == Some(Fault::Refused(ErrorCode::Cancelled)),
    decreases scope.0,
{
    let k = t.scope_at(generation, scope);
    if scope != ancestor && !t.scopes[k].cancelled {
        let parent = t.scopes[k].parent->0;
        law_cancelled_scope_refuses_changes(t, generation, ancestor, parent.scope);
    }
}

/// Nothing more is declared in a scope that was cancelled, nor in one below it.
pub proof fn law_cancelled_scope_refuses_declarations(
    t: Tables,
    ancestor: Number,
    d: Declaration,
    access: Access,
    clock: ClockReading,
)
    requires
        t.scopes[t.scope_at(d.identity.generation, ancestor)].cancelled,
        below(t, d.identity.generation, d.scope, ancestor),
        t.scopes[t.scope_at(d.identity.generation, d.scope)].producer == Producer(0),
    ensures
        t.declare_fault(d, access, clock) == Some(Fault::Refused(ErrorCode::Cancelled)),
{
    law_cancelled_scope_refuses_changes(t, d.identity.generation, ancestor, d.scope);
}

/// The cancellation of a scope that is asked for again after it was committed is answered with its
/// receipt, whatever the clock says. The same operation with other parameters is refused.
pub proof fn law_scope_cancellation_is_replayed(
    t: Tables,
    k: int,
    generation: Id,
    at: Number,
    kept: OperationRow,
    other: Seq<u8>,
)
    requires
        kept.generation == generation,
        kept.originator == Producer(0),
        t.replay(
            generation,
            kept.receipt.operation.0@,
            kept.receipt.request_digest.0@,
        ) is None,
        other != kept.receipt.request_digest.0@,
    ensures
        ({
            let after = t.with_frozen(k, false).with_operation(generation, at, kept);
            let operation = kept.receipt.operation.0@;
            &&& after.replay(generation, operation, kept.receipt.request_digest.0@) == Some(
                Ok::<int, Fault>(t.operations.len() as int),
            )
            &&& after.operations[t.operations.len() as int] == kept
            &&& after.replay(generation, operation, other) == Some(
                Err::<int, Fault>(Fault::Refused(ErrorCode::Conflict)),
            )
        }),
{
    let after = t.with_frozen(k, false).with_operation(generation, at, kept);
    assert(after.operations.drop_last() =~= t.operations);
    super::scopes::lemma_kept_is_found(t, after, generation, kept.receipt.operation.0@);
}

/// Cancelling a scope takes hold at once on the scope and on every scope below it.
pub proof fn law_cancellation_takes_hold_at_once(
    t: Tables,
    generation: Id,
    cancelled: Number,
    at: Number,
    kept: OperationRow,
    scope: Number,
)
    requires
        t.scope_at(generation, cancelled) < t.scopes.len(),
        below(t, generation, scope, cancelled),
    ensures
        t.with_frozen(t.scope_at(generation, cancelled), false).with_operation(
            generation,
            at,
            kept,
        ).open_fault(generation, scope) == Some(Fault::Refused(ErrorCode::Cancelled)),
{
    let k = t.scope_at(generation, cancelled);
    let after = t.with_frozen(k, false).with_operation(generation, at, kept);
    table::lemma_index_where(t.scopes, store::is_scope(generation, cancelled));
    table::lemma_index_alike(t.scopes, store::is_scope(generation, cancelled), after.scopes);
    lemma_below_stays(t, after, generation, scope, cancelled);
    law_cancelled_scope_refuses_changes(after, generation, cancelled, scope);
}

proof fn lemma_below_stays(
    t: Tables,
    after: Tables,
    generation: Id,
    scope: Number,
    ancestor: Number,
)
    requires
        below(t, generation, scope, ancestor),
        after.work == t.work,
        after.scopes.len() == t.scopes.len(),
        forall|k: int|
            0 <= k < t.scopes.len() ==> (#[trigger] t.scopes[k]).generation
                == after.scopes[k].generation && t.scopes[k].scope == after.scopes[k].scope
                && t.scopes[k].parent == after.scopes[k].parent,
    ensures
        below(after, generation, scope, ancestor),
    decreases scope.0,
{
    let p = store::is_scope(generation, scope);
    table::lemma_index_where(t.scopes, p);
    table::lemma_index_alike(t.scopes, p, after.scopes);
    if scope != ancestor {
        let parent = t.scopes[t.scope_at(generation, scope)].parent->0;
        lemma_below_stays(t, after, generation, parent.scope, ancestor);
    }
}

/// The promises of work reach no further back than where they are counted from.
proof fn lemma_cutoff_grows(rows: Seq<WorkRow>, start: Number)
    ensures
        retirement::work_cutoff(rows, start) matches Ok(Some(cutoff)) ==> cutoff.0 >= start.0,
    decreases rows.len(),
{
    if rows.len() > 0 {
        lemma_cutoff_grows(rows.drop_last(), start);
    }
}

/// The evidence that makes a session eligible for retirement is borne out once the intent to retire
/// it is committed.
pub proof fn law_retirement_evidence_is_borne_out(
    t: Tables,
    generation: Id,
    clock: ClockReading,
    evidence: retirement::Evidence,
    written: super::evidence::Proof,
)
    requires
        t.well_formed(),
        t.safe(clock),
        t.retirement_of(generation) == Ok::<Option<int>, Fault>(None),
        t.eligible(generation, clock.utc_ms, None) == Ok::<Option<retirement::Evidence>, Fault>(
            Some(evidence),
        ),
        t.evidences(generation, evidence, clock.utc_ms, written),
    ensures
        t.with_intent(generation, clock.utc_ms, written).retirement_of(generation) == Ok::<
            Option<int>,
            Fault,
        >(Some(t.retirements.len() as int)),
{
    let now = clock.utc_ms;
    let after = t.with_intent(generation, now, written);
    let i = t.session_at(generation);
    let p = store::is_session(generation);
    table::lemma_index_where(t.sessions, p);
    table::lemma_index_alike(t.sessions, p, after.sessions);
    accounts::lemma_named(t, i);
    let r = store::is_retirement(generation);
    table::lemma_index_where(t.retirements, r);
    assert forall|j: int| 0 <= j < t.retirements.len() implies !r(
        #[trigger] after.retirements[j],
    ) by {
        assert(after.retirements[j] == t.retirements[j]);
        assert(!r(t.retirements[j]));
    }
    table::lemma_index_unique(after.retirements, r, t.retirements.len() as int);
    let k = t.scope_at(generation, Number(0));
    table::lemma_index_where(t.scopes, store::is_scope(generation, Number(0)));
    accounts::lemma_counted(t, k);
    let due = store::later(
        evidence.root.closed_at,
        t.sessions[i].binding.policy.receipt_retention_ms,
    )->0;
    lemma_cutoff_grows(t.session_work(generation), due);
    assert(written.fields().valid());
    assert(written.rule());
    assert(after.last_creation(t.sessions[i].binding.identity.owner.0@) == t.last_creation(
        t.sessions[i].binding.identity.owner.0@,
    ));
    assert(after.proof_fault(written) is None);
}

} // verus!
