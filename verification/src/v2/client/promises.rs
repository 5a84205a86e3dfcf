//! What a journal promises across its transitions: what was kept is found again, unchanged, and what
//! was prepared can be sent.

use super::super::authority::store::Fault;
use super::super::authority::table;
use super::super::commitments::Mutation;
use super::super::error::{ErrorCode, MAX_CONTROL_LIMIT, MAX_HEADER};
use super::super::labels::OperationId;
use super::super::messages::{Control, Drain};
use super::super::numbers::{Id, Number, OutputIndex, PageLimit};
use super::super::records::{Input, Manifest, OperationReceipt, ScopeSummary};
use super::super::wire::Wire;
use super::alike;
use super::durability;
use super::journal::{self, Notes};
use super::observations;
use super::pages;
use super::receipts;
use super::records::ObservedWork;
use super::restore;
use super::storage::Intent;
use super::upkeep;
use crate::cbor;
use vstd::prelude::*;

verus! {

proof fn lemma_input_length(input: Input)
    requires
        input.valid(),
    ensures
        input.wire().len() <= 200,
{
    cbor::lemma_head(4, 3);
    cbor::lemma_head(0, input.length.0 as nat);
    cbor::lemma_head(2, 32);
    cbor::lemma_head(3, input.content_type.wire().len());
    let text = vstd::utf8::encode_utf8(input.content_type.0@);
    cbor::lemma_head(3, text.len());
}

/// Admission parameters that are in range always fit in the header of an input stream, so an intent
/// to admit is sent by its header and any other by a control frame.
pub proof fn law_admission_fits_its_header(intent: Intent, generation: Id)
    requires
        intent.mutation matches Mutation::Admit(p) && p.valid(),
        intent.operation.valid(),
        generation.valid(),
    ensures
        intent.header(generation).valid(),
        intent.header(generation).wire().len() <= MAX_HEADER,
{
    let p = intent.mutation->Admit_0;
    let header = intent.header(generation);
    durability::lemma_key_length(p.work);
    lemma_input_length(p.input);
    let text = vstd::utf8::encode_utf8(p.application.0@);
    cbor::lemma_head(3, text.len());
    cbor::lemma_head(0, p.mode.0 as nat);
    cbor::lemma_head(0, p.execution_ms.0 as nat);
    cbor::lemma_head(4, 2);
    cbor::lemma_head(0, p.outputs.count.0 as nat);
    cbor::lemma_head(0, p.outputs.total_bytes.0 as nat);
    cbor::lemma_head(4, 6);
    cbor::lemma_head(4, 4);
    cbor::lemma_head(0, 0);
    cbor::lemma_head(0, generation.0 as nat);
    cbor::lemma_head(2, 16);
    assert(p.fields().wire().len() <= 600);
    assert(p.wire().len() <= 609);
}

/// Once the root is covered, its completion can be sent.
pub proof fn law_root_completion_is_sendable(t: Notes, request: Id)
    requires
        t.ordered(),
        request.valid(),
        t.bound is Some,
        t.covered_fault(Number(0)) is None,
        t.coverage_at(Number(0)) < t.coverage.len(),
    ensures
        Control::Drain(
            Drain::Complete {
                request,
                generation: t.bound->0.identity.generation,
                root_summary: t.coverage[t.coverage_at(Number(0))],
            },
        ).sendable(MAX_HEADER),
{
    let summary = t.coverage[t.coverage_at(Number(0))];
    assert(summary.valid()) by {
        reveal(Notes::coverage_fault);
    }
    durability::lemma_summary_length(summary);
    cbor::lemma_head(4, 4);
    cbor::lemma_head(0, 2);
    cbor::lemma_head(0, 3);
    cbor::lemma_head(0, request.0 as nat);
    cbor::lemma_head(0, t.bound->0.identity.generation.0 as nat);
}

/// Work that was observed is found: the observation itself, or the newer one that was known, so of
/// all observations the one with the highest revision.
pub proof fn law_observed_work_is_found(t: Notes, incoming: ObservedWork, next: Notes)
    requires
        t.well_formed(),
        t.observe_fault(incoming) is None,
        if t.seen_later(incoming) {
            next == t
        } else {
            &&& t.notes_view(incoming, next)
            &&& match incoming.view.manifest {
                Some(m) => t.keeps(m, Notes { observations: t.observations, ..next }),
                None => next == (Notes { observations: next.observations, ..t }),
            }
        },
    ensures
        ({
            let at = next.observed_at(incoming.view.work);
            let found = next.observations[at];
            &&& at < next.observations.len()
            &&& next.view_problem(found) is None
            &&& found.revision.0 >= incoming.revision.0
            &&& t.observed_at(incoming.view.work) < t.observations.len() ==> found.revision.0
                >= t.observations[t.observed_at(incoming.view.work)].revision.0
            &&& found.revision == incoming.revision || t.observed_at(incoming.view.work)
                < t.observations.len() && found.revision == t.observations[t.observed_at(
                incoming.view.work,
            )].revision
            &&& if t.seen_later(incoming) {
                found.revision.0 >= incoming.revision.0 && observations::both_hold(found, incoming)
            } else {
                found.agrees(&incoming)
            }
        }),
{
    let p = journal::is_observed(incoming.view.work);
    let at = t.observed_at(incoming.view.work);
    table::lemma_index_where(t.observations, p);
    upkeep::lemma_sound(t);
    if t.seen_later(incoming) {
        upkeep::lemma_sound_observation(t, at);
    } else {
        upkeep::law_observation_keeps_the_audit(t, incoming, next);
        upkeep::lemma_sound(next);
        let x = next.observations[at];
        assert(x.agrees(&incoming));
        alike::lemma_views_alike(x.view, incoming.view);
        assert forall|j: int| 0 <= j < at implies !p(#[trigger] next.observations[j]) by {
            assert(next.observations[j] == t.observations[j]);
            assert(!p(t.observations[j]));
        }
        table::lemma_index_unique(next.observations, p, at);
        upkeep::lemma_sound_observation(next, at);
    }
}

/// What contradicts the observation that is known is refused: another view under its revision, any
/// other view of later revision once work has ended, and a lower attempt in a later revision. Where
/// nothing else speaks against it, the refusal says that the integrity is hurt.
pub proof fn law_contradicting_view_is_refused(t: Notes, incoming: ObservedWork)
    requires
        t.well_formed(),
        t.observed_at(incoming.view.work) < t.observations.len(),
        ({
            let known = t.observations[t.observed_at(incoming.view.work)];
            ||| incoming.revision == known.revision && !known.agrees(&incoming)
            ||| incoming.revision.0 > known.revision.0 && known.view.state.terminal()
                && !known.view.agrees(&incoming.view)
            ||| incoming.revision.0 < known.revision.0 && incoming.view.state.terminal()
                && !incoming.view.agrees(&known.view)
            ||| incoming.revision.0 > known.revision.0 && incoming.view.attempt.0
                < known.view.attempt.0
        }),
    ensures
        t.observe_fault(incoming) is Some,
        t.view_problem(incoming) is None ==> t.observe_fault(incoming) == Some(
            receipts::integrity(),
        ),
{
}

/// A scope that is known lists its members whenever it is asked properly: each of them stands in the
/// scope, behind the entity that was asked for, and has the producer of the scope.
pub proof fn law_known_scope_lists_its_members(
    t: Notes,
    scope: Number,
    after: Number,
    limit: PageLimit,
)
    requires
        t.well_formed(),
        scope.valid(),
        after.valid(),
        limit.valid(),
        t.scope_at(scope) < t.scopes.len(),
    ensures
        t.inventory_fault(scope, after, limit) is None,
        forall|i: int|
            0 <= i < t.inventory(scope, after, limit).len() ==> {
                let m = #[trigger] t.inventory(scope, after, limit)[i];
                &&& t.members.contains(m)
                &&& m.work.scope == scope
                &&& m.work.entity.0 > after.0
                &&& m.work.producer == t.scopes[t.scope_at(scope)].producer
            },
{
    upkeep::lemma_sound(t);
    let f = Notes::producer_check(t.scopes[t.scope_at(scope)]);
    let page = t.inventory(scope, after, limit);
    assert forall|i: int| 0 <= i < page.len() implies f(#[trigger] page[i]) is None && t.members.contains(
        page[i],
    ) && page[i].work.scope == scope && page[i].work.entity.0 > after.0 && page[i].work.producer
        == t.scopes[t.scope_at(scope)].producer by {
        let k = table::lemma_rows_where_from(t.members, pages::behind(scope, after), i);
        assert(t.members[k] == page[i]);
        upkeep::lemma_sound_member(t, k);
    }
    table::lemma_first_fault_none(page, f);
}

/// An output that was selected is found, with the manifest that it was selected from. Selecting it
/// again gives it again, however full the journal is; selecting it from another manifest does not.
pub proof fn law_selected_output_is_found(
    t: Notes,
    m: Manifest,
    index: OutputIndex,
    next: Notes,
    other: Manifest,
)
    requires
        t.well_formed(),
        t.select_fault(m, index) is None,
        t.keeps(m, Notes { references: t.references, ..next }),
        t.selects(m, index, next),
        other.work == m.work,
        !m.agrees(&other),
    ensures
        next.reference_fault(m.work, m.attempt, index) is None,
        next.manifests[next.manifest_at(m.work)].agrees(&m),
        next.select_fault(m, index) is None,
        next.select_fault(other, index) is Some,
{
    let mid = Notes { references: t.references, ..next };
    upkeep::law_manifest_keeps_the_audit(t, m, mid);
    upkeep::lemma_sound(mid);
    upkeep::lemma_selected(t, m, mid);
    upkeep::law_selection_keeps_the_audit(t, m, index, next);
    upkeep::lemma_sound(next);
    let kept = next.manifests[next.manifest_at(m.work)];
    assert(next.manifest_at(m.work) == mid.manifest_at(m.work));
    let p = journal::is_reference(m.work, index);
    let r = next.reference_at(m.work, index);
    table::lemma_index_where(t.references, p);
    if t.reference_at(m.work, index) >= t.references.len() {
        upkeep::lemma_index_kept(t.references, p, next.references.last());
    }
    table::lemma_index_where(next.references, p);
    assert(r < next.references.len());
    upkeep::lemma_sound_reference(next, r);
    alike::lemma_manifests_alike(kept, m);
    upkeep::lemma_framed_by(next, next);
    upkeep::lemma_seen_by(next, next);
    upkeep::lemma_alike_by(next, next);
    upkeep::lemma_sound_manifest(next, next.manifest_at(m.work));
    alike::lemma_manifest_problem_alike(next, next, kept, m);
    assert(next.reference_fault(m.work, kept.attempt, index) is None);
    assert(next.references[r].choice.manifest.0@ == m.manifest_digest()) by {
        reveal(Notes::reference_fault);
    }
    assert(m.wire().len() <= MAX_CONTROL_LIMIT);
    if next.manifest_problem(other) is None && kept.agrees(&other) {
        assert(m.agrees(&other));
    }
}

/// A closure that was recorded is found. Recording it again gives it again; any other closure of the
/// scope is refused from then on.
pub proof fn law_recorded_closure_is_found(t: Notes, summary: ScopeSummary, other: ScopeSummary)
    requires
        t.well_formed(),
        t.checkpoint_fault(summary) is None,
        other.scope == summary.scope,
        other != summary,
    ensures
        ({
            let next = t.covered(summary);
            let c = next.coverage_at(summary.scope);
            &&& c < next.coverage.len()
            &&& next.coverage[c] == summary
            &&& next.covered_fault(summary.scope) is None
            &&& next.checkpoint_fault(summary) is None
            &&& next.checkpoint_fault(other) is Some
        }),
{
    let next = t.covered(summary);
    let p = journal::is_coverage(summary.scope);
    table::lemma_index_where(t.coverage, p);
    if t.coverage_at(summary.scope) >= t.coverage.len() {
        upkeep::lemma_index_kept(t.coverage, p, summary);
    }
    let c = next.coverage_at(summary.scope);
    table::lemma_index_where(next.coverage, p);
    assert(next.coverage[c] == summary);
    upkeep::law_checkpoint_keeps_the_audit(t, summary);
    upkeep::lemma_sound(next);
    assert(summary.valid() && t.scopes.len() > 0) by {
        reveal(Notes::coverage_fault);
        table::lemma_index_where(t.scopes, journal::is_scope(summary.scope));
    }
    assert(next.ordered());
    upkeep::lemma_covered(next, c);
}

/// A change to a journal.
pub enum Change {
    /// An intent was prepared.
    Prepared(Intent),
    /// A receipt was recorded.
    Answered(OperationReceipt),
    /// Something else was noted, or nothing.
    Noted,
    /// The journal was stored and opened again.
    Reopened,
}

/// The change leads from the one notes to the other.
pub open spec fn changes(t: Notes, change: Change, next: Notes) -> bool {
    match change {
        Change::Prepared(intent) => {
            let kept = next.operations.last();
            &&& t.prepare_fault(intent) is None
            &&& if t.operation_at(intent.operation.0@) < t.operations.len() {
                next == t
            } else {
                &&& next == (Notes { operations: t.operations.push(kept), ..t })
                &&& kept.intent.agrees(intent)
            }
        },
        Change::Answered(receipt) => t.receipt_recorded(receipt) == Ok::<Notes, Fault>(next),
        Change::Noted => next.operations == t.operations,
        Change::Reopened => restore::same_notes(t, next),
    }
}

/// The notes follow one another by the changes.
pub open spec fn history(states: Seq<Notes>, steps: Seq<Change>) -> bool {
    &&& states.len() == steps.len() + 1
    &&& forall|k: int|
        0 <= k < steps.len() ==> changes(states[k], #[trigger] steps[k], states[k + 1])
}

/// The intent is found under its number.
pub open spec fn holds_intent(t: Notes, intent: Intent) -> bool {
    let at = t.operation_at(intent.operation.0@);
    at < t.operations.len() && t.operations[at].intent.agrees(intent)
}

/// Recording a receipt changes no intent.
proof fn lemma_answer_keeps_intents(t: Notes, receipt: OperationReceipt, next: Notes)
    requires
        t.receipt_recorded(receipt) == Ok::<Notes, Fault>(next),
    ensures
        next.operations.len() == t.operations.len(),
        forall|i: int|
            0 <= i < t.operations.len() ==> (#[trigger] next.operations[i]).intent
                == t.operations[i].intent,
{
    reveal(Notes::receipt_committed);
    table::lemma_index_where(t.operations, journal::is_intent(receipt.operation.0@));
}

proof fn lemma_change_keeps_intent(t: Notes, change: Change, next: Notes, intent: Intent)
    requires
        changes(t, change, next),
        holds_intent(t, intent),
    ensures
        holds_intent(next, intent),
{
    let id = intent.operation.0@;
    let p = journal::is_intent(id);
    let at = t.operation_at(id);
    table::lemma_index_where(t.operations, p);
    match change {
        Change::Prepared(_) => {
            if next != t {
                upkeep::lemma_index_kept(t.operations, p, next.operations.last());
            }
        },
        Change::Answered(receipt) => {
            lemma_answer_keeps_intents(t, receipt, next);
            table::lemma_index_alike(t.operations, p, next.operations);
        },
        Change::Noted => {},
        Change::Reopened => {
            assert forall|i: int| 0 <= i < t.operations.len() implies p(#[trigger] t.operations[i])
                == p(next.operations[i]) by {
                assert(restore::same_entry(t.operations[i], next.operations[i]));
            }
            table::lemma_index_alike(t.operations, p, next.operations);
            assert(restore::same_entry(t.operations[at], next.operations[at]));
        },
    }
}

/// An intent that was prepared is found ever after, with the parameters that it was prepared with.
pub proof fn law_prepared_intent_is_kept(
    states: Seq<Notes>,
    steps: Seq<Change>,
    i: int,
    j: int,
    intent: Intent,
)
    requires
        history(states, steps),
        0 <= i < j < states.len(),
        steps[i] == Change::Prepared(intent),
        intent.operation.valid(),
    ensures
        holds_intent(states[j], intent),
        states[j].intent_fault(intent.operation) is None,
    decreases j,
{
    let t = states[j - 1];
    assert(changes(t, steps[j - 1], states[j]));
    let p = journal::is_intent(intent.operation.0@);
    if j == i + 1 {
        table::lemma_index_where(t.operations, p);
        if t.operation_at(intent.operation.0@) >= t.operations.len() {
            upkeep::lemma_index_kept(t.operations, p, states[j].operations.last());
        }
    } else {
        law_prepared_intent_is_kept(states, steps, i, j - 1, intent);
        lemma_change_keeps_intent(t, steps[j - 1], states[j], intent);
    }
}

/// An operation that was never prepared is not found.
pub proof fn law_unprepared_operation_is_not_found(
    states: Seq<Notes>,
    steps: Seq<Change>,
    j: int,
    operation: OperationId,
)
    requires
        history(states, steps),
        0 <= j < states.len(),
        states[0].operations.len() == 0,
        operation.valid(),
        forall|k: int|
            0 <= k < j ==> (#[trigger] steps[k] matches Change::Prepared(intent)
                ==> intent.operation.0@ != operation.0@),
    ensures
        states[j].intent_fault(operation) == Some(Fault::Refused(ErrorCode::NotFound)),
        states[j].operation_at(operation.0@) >= states[j].operations.len(),
    decreases j,
{
    let p = journal::is_intent(operation.0@);
    table::lemma_index_where(states[j].operations, p);
    if j > 0 {
        let t = states[j - 1];
        let next = states[j];
        law_unprepared_operation_is_not_found(states, steps, j - 1, operation);
        assert(changes(t, steps[j - 1], next));
        table::lemma_index_where(t.operations, p);
        match steps[j - 1] {
            Change::Prepared(intent) => {
                if next != t {
                    upkeep::lemma_index_kept(t.operations, p, next.operations.last());
                }
            },
            Change::Answered(receipt) => {
                lemma_answer_keeps_intents(t, receipt, next);
                table::lemma_index_alike(t.operations, p, next.operations);
            },
            Change::Noted => {},
            Change::Reopened => {
                assert forall|i: int|
                    0 <= i < t.operations.len() implies p(#[trigger] t.operations[i]) == p(
                    next.operations[i],
                ) by {
                    assert(restore::same_entry(t.operations[i], next.operations[i]));
                }
                table::lemma_index_alike(t.operations, p, next.operations);
            },
        }
    }
}

} // verus!
