//! What the journal takes in and holds on to: that a receipt answers its intent, that a view keeps to
//! the policy of the session, and that what was once known stays known.

use super::super::authority::scopes::Declaration;
use super::super::authority::store::{ClockReading, Fault, Tables};
use super::super::authority::table;
use super::super::commitments::{Mutation, SessionIdentity};
use super::super::correlation::{self, Book};
use super::super::dialogue;
use super::super::error::{ErrorCode, MAX_NUMBER};
use super::super::labels::OperationId;
use super::super::messages::{Control, Scope, Work};
use super::super::numbers::{Id, Number, PageLimit, Producer, State};
use super::super::records::{Manifest, OperationReceipt, Outcome, WorkKey};
use super::super::wire::Wire;
use super::journal::{self, Notes};
use super::observations;
use super::pages;
use super::records::{ObservedWork, ScopeMember};
use super::storage::{self, Intent};
use vstd::prelude::*;

verus! {

/// The receipt of a declaration answers the intent that asked for it.
pub proof fn law_declaration_answers_its_intent(
    t: Tables,
    d: Declaration,
    access: super::super::authority::store::Access,
    clock: ClockReading,
    after: Tables,
    receipt: OperationReceipt,
    intent: Intent,
)
    requires
        t.declare_fault(d, access, clock) is None,
        t.declared(d, clock, after, receipt),
        receipt.valid(),
        intent.operation == d.operation,
        intent.mutation == (Mutation::Declare {
            scope: d.scope,
            entity_ids: d.entity_ids,
            seal: d.sealed,
        }),
        intent.mutation.committable(d.identity, Producer(0), d.operation),
    ensures
        storage::receipt_fault(intent, d.identity, receipt) is None,
{
}

/// The receipt of a fence answers the intent that asked for it.
pub proof fn law_fence_answers_its_intent(
    t: Tables,
    identity: SessionIdentity,
    key: WorkKey,
    skip: bool,
    operation: OperationId,
    clock: ClockReading,
    after: Tables,
    receipt: OperationReceipt,
    intent: Intent,
)
    requires
        t.work_fenced(identity, key, skip, operation, clock, after, receipt),
        receipt.valid(),
        intent.operation == operation,
        intent.mutation == if skip {
            Mutation::Skip { work: key }
        } else {
            Mutation::Cancel { work: key }
        },
        intent.mutation.committable(identity, Producer(0), operation),
    ensures
        storage::receipt_fault(intent, identity, receipt) is None,
{
}

/// A receipt that answers an intent is of its operation and of its kind, and repeats what it asked for.
pub proof fn law_answer_repeats_the_intent(
    intent: Intent,
    identity: SessionIdentity,
    receipt: OperationReceipt,
)
    requires
        storage::receipt_fault(intent, identity, receipt) is None,
    ensures
        receipt.operation.0@ == intent.operation.0@,
        receipt.request_digest.0@ == intent.mutation.operation_digest(
            identity,
            Producer(0),
            intent.operation,
        ),
        match intent.mutation {
            Mutation::Admit(p) => receipt.body matches Outcome::Admitted {
                work,
                admitted_at,
                deadline,
                child,
                ..
            } && {
                &&& work == p.work
                &&& deadline.0 == admitted_at.0 + p.execution_ms.0
                &&& p.mode.0 == 0 || p.mode.0 == 1 || p.mode.0 == 2
                &&& child is Some <==> p.mode.0 != 0
                &&& child matches Some(c) ==> c.producer.0 + 1 == p.mode.0
            },
            Mutation::Declare { scope, entity_ids, seal } => receipt.body matches Outcome::Declared {
                scope: s,
                producer,
                accepted_count,
                seal: digest,
                ..
            } && s == scope && producer.0 == 0 && accepted_count.0 == entity_ids@.len() && (
            digest is Some <==> seal),
            Mutation::Retry { work, expected_attempt } => receipt.body matches Outcome::Retried {
                work: w,
                expected_attempt: a,
                ..
            } && w == work && a == expected_attempt,
            Mutation::Cancel { work } => receipt.body matches Outcome::Cancelled { work: w, .. } && w
                == work,
            Mutation::Skip { work } => receipt.body matches Outcome::Skipped { work: w, .. } && w
                == work,
            Mutation::ScopeCancel { scope } => receipt.body matches Outcome::ScopeCancelled {
                scope: s,
                ..
            } && s == scope,
        },
{
}

/// The receipt that answers an intent completes the request that the intent sends, and for an admission
/// the input that it opens.
pub proof fn law_answer_completes_the_request(
    intent: Intent,
    identity: SessionIdentity,
    receipt: OperationReceipt,
    book: Book,
    i: int,
    number: Id,
)
    requires
        storage::receipt_fault(intent, identity, receipt) is None,
        !(intent.mutation is Admit) ==> dialogue::awaits(book, i, number)
            && book.controls[i].request == intent.request(number),
    ensures
        match intent.mutation {
            Mutation::Admit(p) => correlation::admission_matches(
                intent.header(identity.generation),
                receipt,
            ),
            Mutation::Declare { .. } => dialogue::completes(
                book,
                i,
                Control::Scope(Scope::Declared { request: number, receipt }),
                true,
            ),
            Mutation::ScopeCancel { .. } => dialogue::completes(
                book,
                i,
                Control::Scope(Scope::Cancelled { request: number, receipt }),
                true,
            ),
            Mutation::Retry { .. } => dialogue::completes(
                book,
                i,
                Control::Work(Work::Retried { request: number, receipt }),
                true,
            ),
            Mutation::Cancel { .. } => dialogue::completes(
                book,
                i,
                Control::Work(Work::Cancelled { request: number, receipt }),
                true,
            ),
            Mutation::Skip { .. } => dialogue::completes(
                book,
                i,
                Control::Work(Work::Skipped { request: number, receipt }),
                true,
            ),
        },
{
    match intent.mutation {
        Mutation::Admit(p) => {},
        Mutation::Declare { scope, entity_ids, seal } => {
            dialogue::law_receipt_answers_declaration(
                book,
                i,
                number,
                intent.operation,
                scope,
                entity_ids,
                seal,
                receipt,
            );
        },
        Mutation::ScopeCancel { scope } => {
            dialogue::law_receipt_answers_scope_cancel(
                book,
                i,
                number,
                intent.operation,
                scope,
                receipt,
            );
        },
        Mutation::Retry { work, expected_attempt } => {
            dialogue::law_receipt_answers_retry(
                book,
                i,
                number,
                intent.operation,
                work,
                expected_attempt,
                receipt,
            );
        },
        Mutation::Cancel { work } => {
            dialogue::law_receipt_answers_cancel(
                book,
                i,
                number,
                intent.operation,
                work,
                receipt,
            );
        },
        Mutation::Skip { work } => {
            dialogue::law_receipt_answers_skip(
                book,
                i,
                number,
                intent.operation,
                work,
                receipt,
            );
        },
    }
}

/// The header of an admission names the session, the operation and the parameters of its intent.
pub proof fn law_admission_is_headed_by_its_intent(intent: Intent, generation: Id)
    requires
        intent.mutation is Admit,
    ensures
        intent.header(generation).generation == generation,
        intent.header(generation).operation == intent.operation,
        intent.header(generation).parameters == intent.mutation->Admit_0,
{
}

/// A view that is believed keeps to the policy of the session: work is admitted for no longer than that
/// allows, a receipt is kept exactly as long, a success comes before the deadline, and shows a manifest
/// exactly where the session delivers results.
pub proof fn law_believed_view_keeps_to_the_policy(t: Notes, observed: ObservedWork)
    requires
        t.view_problem(observed) is None,
    ensures
        ({
            let view = observed.view;
            let policy = t.creation.policy;
            &&& t.bound is Some
            &&& view.valid()
            &&& view.admitted_at matches Some(at) ==> (view.deadline matches Some(end) && end.0 <= at.0
                + policy.execution_limit_ms.0)
            &&& view.terminal_at matches Some(at) ==> (view.receipt_until matches Some(until)
                && until.0 == at.0 + policy.receipt_retention_ms.0)
            &&& view.state.0 == State::SUCCEEDED ==> (view.manifest is Some <==> t.creation.results)
            &&& view.state.0 == State::SUCCEEDED && view.terminal_at is Some ==> (
            view.deadline matches Some(end) && (view.terminal_at->0).0 < end.0)
            &&& view.work.scope.0 == 0 ==> view.work.producer.0 == 0
            &&& view.manifest matches Some(m) ==> t.manifest_problem(m) is None
        }),
{
    reveal(Notes::view_problem);
}

/// A manifest that is believed was issued by the bound session, under the policy of which its outputs are
/// available for as long as promised, and contradicts no view of its work.
pub proof fn law_believed_manifest_is_issued(t: Notes, m: Manifest)
    requires
        t.manifest_problem(m) is None,
    ensures
        t.creation.results,
        t.bound matches Some(b) && m.authority.0@ == b.identity.authority.0@ && m.owner.0@
            == b.identity.owner.0@ && m.generation == b.identity.generation,
        m.available_until.0 == m.committed_at.0 + t.creation.policy.output_retention_ms.0,
        forall|o: int|
            o == t.observed_at(m.work) && o < t.observations.len()
                ==> #[trigger] observations::manifest_fits_view(m, t.observations[o].view),
{
    reveal(Notes::manifest_problem);
}

/// A journal that knows nothing yet believes whatever keeps to the policy of its session.
pub proof fn law_unknown_work_is_believed(t: Notes, observed: ObservedWork)
    requires
        t.bound is Some,
        t.operations.len() == 0,
        t.unobserved(),
        t.limits.observations.0 > 0,
        observed.revision.valid(),
        observed.view.valid(),
        observed.view.manifest is None,
        observed.view.state.0 == State::SUCCEEDED ==> !t.creation.results,
        observed.view.work.scope.0 == 0 ==> observed.view.work.producer.0 == 0,
        observed.view.admitted_at matches Some(at) ==> (observed.view.deadline matches Some(end)
            && end.0 <= at.0 + t.creation.policy.execution_limit_ms.0),
        observed.view.terminal_at matches Some(at) ==> (observed.view.receipt_until matches Some(
            until,
        ) && until.0 == at.0 + t.creation.policy.receipt_retention_ms.0),
        observed.view.terminal_at is Some && observed.view.state.0 == State::SUCCEEDED ==> (
        observed.view.deadline matches Some(end) && (observed.view.terminal_at->0).0 < end.0),
        observed.wire().len() <= super::super::error::MAX_CONTROL_LIMIT,
    ensures
        t.observe_fault(observed) is None,
{
    reveal(Notes::view_problem);
}

/// Of two views of the same work the one with the later revision is kept.
pub proof fn law_latest_view_is_kept(t: Notes, incoming: ObservedWork, next: Notes, at: int)
    requires
        0 <= at < t.observations.len(),
        t.observations[at].view.work == incoming.view.work,
        forall|j: int| 0 <= j < at ==> (#[trigger] t.observations[j]).view.work != incoming.view.work,
        t.notes_view(incoming, next),
    ensures
        t.seen_later(incoming) <==> incoming.revision.0 <= t.observations[at].revision.0,
        next.observations.len() == t.observations.len(),
        next.observations[at].agrees(&incoming),
        forall|j: int|
            0 <= j < t.observations.len() && j != at ==> #[trigger] next.observations[j]
                == t.observations[j],
{
    let p = journal::is_observed(incoming.view.work);
    assert forall|j: int| 0 <= j < at implies !p(#[trigger] t.observations[j]) by {}
    table::lemma_index_unique(t.observations, p, at);
}

/// An intent is prepared once under its operation: the same again changes nothing, another under the
/// same operation is a conflict, and a new one needs room.
pub proof fn law_intent_is_prepared_once(t: Notes, intent: Intent, at: int)
    requires
        t.bound is Some,
        storage::intent_fault(intent, t.bound->0.identity) is None,
        0 <= at <= t.operations.len(),
        forall|j: int|
            0 <= j < at ==> (#[trigger] t.operations[j]).intent.operation.0@ != intent.operation.0@,
        at < t.operations.len() ==> t.operations[at].intent.operation.0@ == intent.operation.0@,
    ensures
        at < t.operations.len() ==> t.prepare_fault(intent) == if t.operations[at].intent.agrees(
            intent,
        ) {
            None
        } else {
            Some(Fault::Refused(ErrorCode::Conflict))
        },
        at == t.operations.len() ==> (t.prepare_fault(intent) is None <==> {
            &&& t.operations.len() + 1 <= t.limits.operations.0
            &&& t.operations.len() > 0 ==> t.operations.last().row < MAX_NUMBER
        }),
        at == t.operations.len() && t.prepare_fault(intent) is Some ==> t.prepare_fault(intent)
            == Some(Fault::Refused(ErrorCode::LimitExceeded)),
{
    let p = journal::is_intent(intent.operation.0@);
    assert forall|j: int| 0 <= j < at implies !p(#[trigger] t.operations[j]) by {}
    table::lemma_index_unique(t.operations, p, at);
}

/// Without a bound session nothing is prepared.
pub proof fn law_unbound_journal_prepares_nothing(t: Notes, intent: Intent)
    requires
        t.bound is None,
    ensures
        t.prepare_fault(intent) == Some(Fault::Refused(ErrorCode::NotReady)),
{
}

/// The member is known, with this end.
pub open spec fn knows(t: Notes, work: WorkKey, terminal: Option<State>) -> bool {
    exists|i: int|
        0 <= i < t.members.len() && (#[trigger] t.members[i]).work == work && t.members[i].terminal
            == terminal
}

/// A member that is taken in is known from then on, with the end that was reported first. Every other
/// member stays known as it was.
pub proof fn law_reported_member_is_known(t: Notes, v: ScopeMember, next: Notes, other: ScopeMember)
    requires
        t.member_saved(v) == Ok::<Notes, Fault>(next),
    ensures
        knows(next, v.work, v.terminal) || (exists|end: State|
            knows(t, v.work, Some(end)) && #[trigger] knows(next, v.work, Some(end)) && (
            v.terminal is None || v.terminal == Some(end))),
        other.work != v.work && t.members.contains(other) ==> next.members.contains(other),
        next.members.len() <= t.members.len() + 1,
        next.scopes == t.scopes,
        next.observations == t.observations,
        next.operations == t.operations,
{
    let p = journal::is_member(v.work.scope, v.work.entity);
    table::lemma_index_where(t.members, p);
    table::lemma_index_where(t.members, pages::not_before(v.work));
    let i = t.member_at(v.work.scope, v.work.entity);
    if i < t.members.len() {
        assert(next.members[i].work == v.work);
        if t.members[i].terminal is Some {
            let end = t.members[i].terminal->0;
            assert(knows(t, v.work, Some(end)));
            assert(knows(next, v.work, Some(end)));
        } else {
            assert(next.members[i].terminal == v.terminal);
        }
        if other.work != v.work && t.members.contains(other) {
            let n = choose|n: int| 0 <= n < t.members.len() && t.members[n] == other;
            assert(next.members[n] == other);
        }
    } else {
        let at = table::index_where(t.members, pages::not_before(v.work));
        assert(next.members[at] == v);
        if t.members.contains(other) {
            let n = choose|n: int| 0 <= n < t.members.len() && t.members[n] == other;
            if n < at {
                assert(next.members[n] == other);
            } else {
                assert(next.members[n + 1] == other);
            }
        }
    }
}

/// A second end for a member is refused.
pub proof fn law_member_has_one_end(t: Notes, v: ScopeMember, i: int)
    requires
        0 <= i < t.members.len(),
        t.members[i].work == v.work,
        forall|j: int|
            0 <= j < i ==> (#[trigger] t.members[j]).work.scope != v.work.scope
                || t.members[j].work.entity != v.work.entity,
        t.members[i].terminal is Some,
        v.terminal is Some,
        t.members[i].terminal != v.terminal,
    ensures
        t.member_saved(v) is Err,
{
    let p = journal::is_member(v.work.scope, v.work.entity);
    assert forall|j: int| 0 <= j < i implies !p(#[trigger] t.members[j]) by {}
    table::lemma_index_unique(t.members, p, i);
}

/// What is listed of a scope are members of it behind an entity, up to the limit; where fewer are
/// listed, all there are.
pub proof fn law_inventory_lists_members(
    t: Notes,
    scope: Number,
    after: Number,
    limit: PageLimit,
    i: int,
    m: ScopeMember,
)
    ensures
        ({
            let listed = t.inventory(scope, after, limit);
            &&& listed.len() <= limit.0
            &&& 0 <= i < listed.len() ==> listed[i].work.scope == scope && listed[i].work.entity.0
                > after.0 && t.members.contains(listed[i])
            &&& listed.len() < limit.0 && t.members.contains(m) && m.work.scope == scope
                && m.work.entity.0 > after.0 ==> listed.contains(m)
        }),
{
    let p = pages::behind(scope, after);
    let rows = table::rows_where(t.members, p);
    let listed = t.inventory(scope, after, limit);
    if 0 <= i < listed.len() {
        let j = table::lemma_rows_where_from(t.members, p, i);
        assert(t.members[j] == listed[i]);
    }
    if listed.len() < limit.0 && t.members.contains(m) && m.work.scope == scope && m.work.entity.0
        > after.0 {
        let j = choose|j: int| 0 <= j < t.members.len() && t.members[j] == m;
        let n = super::super::authority::release::lemma_row_listed(t.members, p, j);
        assert(listed[n] == m);
    }
}

/// A page reports what it shows: for each entry its work, and its end where it has come to one.
pub proof fn law_page_reports_its_entries(p: pages::PageFacts, i: int)
    requires
        0 <= i < p.entries.len(),
    ensures
        ({
            let state = p.entries[i].state;
            let over = state.0 == State::SUCCEEDED || state.0 == State::FAILED || state.0
                == State::CANCELLED || state.0 == State::SKIPPED;
            &&& p.member(i).work.scope == p.scope
            &&& p.member(i).work.producer == p.producer
            &&& p.member(i).work.entity == p.entries[i].entity
            &&& p.member(i).terminal == if over {
                Some(state)
            } else {
                None
            }
            &&& p.incoming().scope == p.scope
            &&& p.incoming().producer == p.producer
            &&& p.incoming().parent == p.parent
            &&& p.incoming().declared == p.declared
            &&& p.incoming().seal == p.seal
            &&& !p.incoming().membership_verified
        }),
{
}

} // verus!
