//! That whatever a journal accepts can be written down: no record that was taken in is too long for
//! its table, or cannot be encoded.

use super::super::authority::store::Fault;
use super::super::authority::table;
use super::super::commitments::SessionIdentity;
use super::super::error::{MAX_CONTROL_LIMIT, MAX_HEADER};
use super::super::messages::{Control, Session};
use super::super::numbers::OutputIndex;
use super::super::records::{Manifest, OperationReceipt, ScopeSummary, WorkKey};
use super::super::wire::{Solid, Wire};
use super::journal::{self, BoundSession, Notes, OperationEntry, ReferenceEntry};
use super::observations;
use super::pages::PageFacts;
use super::records::{ObservedWork, ScopeMember, ScopeObservation};
use super::restore::{self, JournalFile};
use super::storage::{self, Intent};
use super::upkeep;
use crate::cbor;
use vstd::prelude::*;

verus! {

/// The operation has an image, and so has its receipt.
pub open spec fn entry_fits(e: OperationEntry, identity: SessionIdentity) -> bool {
    &&& storage::intent_fault(e.intent, identity) is None
    &&& e.receipt matches Some(receipt) ==> receipt.wire().len() <= MAX_HEADER
}

/// Every record fits in its table.
#[verifier::opaque]
pub open spec fn compact(t: Notes) -> bool {
    &&& t.bound matches Some(b) ==> restore::binding_fault(b, t.creation) is None
        && observations::names_session(b.identity)
    &&& forall|i: int|
        0 <= i < t.operations.len() ==> entry_fits(
            #[trigger] t.operations[i],
            t.bound->0.identity,
        )
    &&& forall|i: int|
        0 <= i < t.observations.len() ==> (#[trigger] t.observations[i]).wire().len()
            <= MAX_CONTROL_LIMIT
    &&& forall|i: int|
        0 <= i < t.manifests.len() ==> (#[trigger] t.manifests[i]).wire().len()
            <= MAX_CONTROL_LIMIT
    &&& forall|i: int| 0 <= i < t.coverage.len() ==> (#[trigger] t.coverage[i]).valid()
}

pub proof fn lemma_key_length(work: WorkKey)
    ensures
        work.wire().len() <= 36,
{
    cbor::lemma_head(4, 3);
    cbor::lemma_head(0, work.scope.0 as nat);
    cbor::lemma_head(0, work.producer.0 as nat);
    cbor::lemma_head(0, work.entity.0 as nat);
}

proof fn lemma_scope(v: ScopeObservation)
    ensures
        0 < v.wire().len() <= 200,
{
    cbor::lemma_head(4, 6);
    cbor::lemma_head(0, v.scope.0 as nat);
    cbor::lemma_head(0, v.producer.0 as nat);
    cbor::lemma_head(0, v.declared.0 as nat);
    cbor::lemma_head(2, 32);
    if v.parent is Some {
        lemma_key_length(v.parent->0);
    }
}

proof fn lemma_member(v: ScopeMember)
    ensures
        0 < v.wire().len() <= 100,
{
    cbor::lemma_head(4, 2);
    lemma_key_length(v.work);
    if v.terminal is Some {
        cbor::lemma_head(0, (v.terminal->0).0 as nat);
    }
}

pub proof fn lemma_summary_length(s: ScopeSummary)
    ensures
        0 < s.wire().len() <= 300,
{
    cbor::lemma_head(4, 8);
    cbor::lemma_head(4, 4);
    cbor::lemma_head(0, s.scope.0 as nat);
    cbor::lemma_head(0, s.producer.0 as nat);
    if s.parent is Some {
        lemma_key_length(s.parent->0);
    }
    cbor::lemma_head(2, 32);
    cbor::lemma_head(0, s.declared.0 as nat);
    cbor::lemma_head(0, s.counts.success.0 as nat);
    cbor::lemma_head(0, s.counts.failure.0 as nat);
    cbor::lemma_head(0, s.counts.cancelled.0 as nat);
    cbor::lemma_head(0, s.counts.skipped.0 as nat);
    cbor::lemma_head(0, s.closed_at.0 as nat);
    assert(s.counts.wire().len() <= 45);
}

proof fn lemma_reference(e: ReferenceEntry)
    ensures
        0 < e.choice.wire().len() <= 100,
{
    cbor::lemma_head(4, 2);
    cbor::lemma_head(0, e.choice.index.0 as nat);
    cbor::lemma_head(2, 32);
}

/// A valid value that is not too long can be written into its table.
proof fn lemma_value<T: Solid>(wide: bool, limit: usize, v: T)
    requires
        v.valid(),
        v.wire().len() <= limit,
        limit + 32 <= storage::image_bound(wide),
    ensures
        restore::value_fault(wide, limit, v) is None,
{
    v.valid_shaped();
    v.solid();
}

proof fn lemma_published_valid(t: Notes, m: Manifest)
    requires
        t.manifest_problem(m) is None,
    ensures
        m.valid(),
{
    reveal(Notes::manifest_problem);
}

proof fn lemma_seen_valid(t: Notes, o: ObservedWork)
    requires
        t.view_problem(o) is None,
    ensures
        o.valid(),
        o.view.work.valid(),
{
    reveal(Notes::view_problem);
    assert(o.view.valid());
}

#[verifier::spinoff_prover]
#[verifier::rlimit(40)]
proof fn lemma_operations_written(t: Notes)
    requires
        t.well_formed(),
        t.bound is Some,
    ensures
        table::first_fault(t.operations, restore::operation_faults(t.bound->0.identity)) is None,
{
    reveal(compact);
    let identity = t.bound->0.identity;
    let f = restore::operation_faults(identity);
    upkeep::lemma_sound(t);
    assert forall|i: int| 0 <= i < t.operations.len() implies f(#[trigger] t.operations[i]) is None by {
        let e = t.operations[i];
        assert(entry_fits(e, identity));
        upkeep::lemma_sound_entry(t, i);
        if e.receipt is Some {
            let r = e.receipt->0;
            r.valid_shaped();
            r.solid();
        }
    }
    table::lemma_first_fault_none(t.operations, f);
}

#[verifier::spinoff_prover]
#[verifier::rlimit(40)]
proof fn lemma_observations_written(t: Notes)
    requires
        t.well_formed(),
        t.bound is Some,
    ensures
        table::first_fault(t.observations, restore::observation_faults(t.bound->0.identity)) is None,
{
    reveal(compact);
    let identity = t.bound->0.identity;
    let f = restore::observation_faults(identity);
    upkeep::lemma_sound(t);
    assert forall|i: int| 0 <= i < t.observations.len() implies f(#[trigger] t.observations[i]) is None by {
        let o = t.observations[i];
        upkeep::lemma_sound_observation(t, i);
        assert(t.view_problem(o) is None);
        lemma_seen_valid(t, o);
        lemma_key_length(o.view.work);
        lemma_value(true, MAX_CONTROL_LIMIT, o);
    }
    table::lemma_first_fault_none(t.observations, f);
}

#[verifier::spinoff_prover]
#[verifier::rlimit(40)]
proof fn lemma_manifests_written(t: Notes)
    requires
        t.well_formed(),
        t.bound is Some,
    ensures
        table::first_fault(t.manifests, restore::manifest_faults(t.bound->0.identity)) is None,
{
    reveal(compact);
    let identity = t.bound->0.identity;
    let f = restore::manifest_faults(identity);
    upkeep::lemma_sound(t);
    assert forall|i: int| 0 <= i < t.manifests.len() implies f(#[trigger] t.manifests[i]) is None by {
        let m = t.manifests[i];
        upkeep::lemma_sound_manifest(t, i);
        lemma_published_valid(t, m);
        lemma_key_length(m.work);
        assert(m.work.valid());
        lemma_value(true, MAX_CONTROL_LIMIT, m);
    }
    table::lemma_first_fault_none(t.manifests, f);
}

#[verifier::spinoff_prover]
#[verifier::rlimit(40)]
proof fn lemma_references_written(t: Notes)
    requires
        t.well_formed(),
        t.bound is Some,
    ensures
        table::first_fault(t.references, restore::reference_faults(t.bound->0.identity)) is None,
{
    reveal(compact);
    let identity = t.bound->0.identity;
    let f = restore::reference_faults(identity);
    upkeep::lemma_sound(t);
    assert forall|i: int| 0 <= i < t.references.len() implies f(#[trigger] t.references[i]) is None by {
        let e = t.references[i];
        upkeep::lemma_sound_reference(t, i);
        lemma_key_length(e.work);
        lemma_reference(e);
    }
    table::lemma_first_fault_none(t.references, f);
}

#[verifier::spinoff_prover]
#[verifier::rlimit(40)]
proof fn lemma_scopes_written(t: Notes)
    requires
        t.well_formed(),
        t.bound is Some,
    ensures
        table::first_fault(t.scopes, restore::scope_faults(t.bound->0.identity)) is None,
{
    reveal(compact);
    let identity = t.bound->0.identity;
    let f = restore::scope_faults(identity);
    upkeep::lemma_sound(t);
    assert forall|i: int| 0 <= i < t.scopes.len() implies f(#[trigger] t.scopes[i]) is None by {
        let v = t.scopes[i];
        assert(v.valid());
        lemma_scope(v);
        cbor::lemma_head(0, v.scope.0 as nat);
    }
    table::lemma_first_fault_none(t.scopes, f);
}

#[verifier::spinoff_prover]
#[verifier::rlimit(40)]
proof fn lemma_members_written(t: Notes)
    requires
        t.well_formed(),
        t.bound is Some,
    ensures
        table::first_fault(t.members, restore::member_faults(t.bound->0.identity)) is None,
{
    reveal(compact);
    let identity = t.bound->0.identity;
    let f = restore::member_faults(identity);
    upkeep::lemma_sound(t);
    assert forall|i: int| 0 <= i < t.members.len() implies f(#[trigger] t.members[i]) is None by {
        let v = t.members[i];
        assert(v.valid());
        lemma_member(v);
        cbor::lemma_head(0, v.work.scope.0 as nat);
        cbor::lemma_head(0, v.work.entity.0 as nat);
    }
    table::lemma_first_fault_none(t.members, f);
}

#[verifier::spinoff_prover]
#[verifier::rlimit(40)]
proof fn lemma_coverage_written(t: Notes)
    requires
        t.well_formed(),
        t.bound is Some,
    ensures
        table::first_fault(t.coverage, restore::summary_faults(t.bound->0.identity)) is None,
{
    reveal(compact);
    let identity = t.bound->0.identity;
    let f = restore::summary_faults(identity);
    upkeep::lemma_sound(t);
    assert forall|i: int| 0 <= i < t.coverage.len() implies f(#[trigger] t.coverage[i]) is None by {
        let v = t.coverage[i];
        assert(v.valid());
        lemma_summary_length(v);
        cbor::lemma_head(0, v.scope.0 as nat);
    }
    table::lemma_first_fault_none(t.coverage, f);
}

/// A well-formed journal can be written down.
pub proof fn law_journal_can_be_written(t: Notes)
    requires
        t.well_formed(),
    ensures
        restore::images_fault(t) is None,
{
    reveal(compact);
    if t.bound is Some {
        lemma_operations_written(t);
        lemma_observations_written(t);
        lemma_manifests_written(t);
        lemma_references_written(t);
        lemma_scopes_written(t);
        lemma_members_written(t);
        lemma_coverage_written(t);
    }
}

/// Records fit in a new journal.
pub proof fn law_new_journal_is_compact(t: Notes)
    requires
        t.ordered(),
        t.bound is None,
    ensures
        compact(t),
{
    reveal(compact);
}

proof fn lemma_session_named(b: BoundSession)
    requires
        b.stored().sendable(storage::IMAGE_LIMIT),
    ensures
        observations::names_session(b.identity),
{
    let kept = b.stored()->Session_0;
    assert(kept.valid());
    cbor::lemma_head(0, b.identity.generation.0 as nat);
    cbor::lemma_head(3, vstd::utf8::encode_utf8(b.identity.authority.0@).len());
    cbor::lemma_head(3, vstd::utf8::encode_utf8(b.identity.owner.0@).len());
}

/// What was read from storage can be written down again.
pub proof fn law_read_journal_is_compact(file: JournalFile, t: Notes)
    requires
        restore::holds(file, t),
    ensures
        compact(t),
{
    reveal(compact);
    reveal(restore::kept);
    if t.bound is Some {
        let b = t.bound->0;
        assert(restore::binding_kept((file.binding->0)@, t.creation, b));
        lemma_session_named(b);
    }
    assert forall|i: int| 0 <= i < t.operations.len() implies entry_fits(
        #[trigger] t.operations[i],
        t.bound->0.identity,
    ) by {
        assert(restore::operation_kept(
            file.operations@[i],
            t.bound->0.identity,
            t.operations[i],
        ));
    }
    assert forall|i: int| 0 <= i < t.observations.len() implies (
    #[trigger] t.observations[i]).wire().len() <= MAX_CONTROL_LIMIT by {
        assert(restore::observation_kept(
            file.observations@[i],
            t.bound->0.identity,
            t.observations[i],
        ));
    }
    assert forall|i: int| 0 <= i < t.manifests.len() implies (
    #[trigger] t.manifests[i]).wire().len() <= MAX_CONTROL_LIMIT by {
        assert(restore::manifest_kept(
            file.manifests@[i],
            t.bound->0.identity,
            t.manifests[i],
        ));
    }
    assert forall|i: int| 0 <= i < t.coverage.len() implies (#[trigger] t.coverage[i]).valid() by {
        assert(restore::summary_kept(file.coverage@[i], t.bound->0.identity, t.coverage[i]));
    }
}

/// A binding that was accepted can be written down.
pub proof fn law_binding_stays_compact(t: Notes, response: Control, b: BoundSession)
    requires
        t.ordered(),
        t.bound is None,
        response.sendable(storage::IMAGE_LIMIT),
        storage::is_binding(response),
        journal::binds(t.creation, response),
        b.announced_by(response),
    ensures
        compact(Notes { bound: Some(b), ..t }),
{
    reveal(compact);
    let given = response->Session_0;
    let kept = b.stored()->Session_0;
    given.valid_shaped();
    b.identity.authority.agrees_reflexive();
    match given {
        Session::Binding {
            request,
            authority,
            owner,
            generation,
            creation_sequence,
            policy,
            limits,
        } => {
            Wire::agrees_carries(&authority, &b.identity.authority);
            Wire::agrees_carries(&owner, &b.identity.owner);
            cbor::lemma_head(0, request.0 as nat);
            cbor::lemma_head(0, 1);
            cbor::lemma_head(0, generation.0 as nat);
            cbor::lemma_head(3, vstd::utf8::encode_utf8(authority.0@).len());
            cbor::lemma_head(3, vstd::utf8::encode_utf8(owner.0@).len());
            cbor::lemma_head(0, creation_sequence.0 as nat);
            cbor::lemma_head(0, policy.execution_limit_ms.0 as nat);
            cbor::lemma_head(0, policy.output_retention_ms.0 as nat);
            cbor::lemma_head(0, policy.receipt_retention_ms.0 as nat);
            cbor::lemma_head(0, limits.scopes.0 as nat);
            cbor::lemma_head(0, limits.entities.0 as nat);
            cbor::lemma_head(0, limits.operations.0 as nat);
            cbor::lemma_head(0, limits.active_jobs.0 as nat);
            cbor::lemma_head(0, limits.retained_input_bytes.0 as nat);
            cbor::lemma_head(0, limits.retained_output_bytes.0 as nat);
            cbor::lemma_head(4, 3);
            cbor::lemma_head(4, 6);
            cbor::lemma_head(4, 8);
            cbor::lemma_head(0, 2);
            assert(policy.wire().len() <= 40);
            assert(limits.wire().len() <= 70);
            assert(authority.wire().len() <= 140);
            assert(owner.wire().len() <= 140);
        },
        _ => {},
    }
    assert(kept.valid());
    assert(kept.wire().len() <= given.wire().len());
    assert(kept.wire().len() <= 1000);
    assert(b.stored().sendable(storage::IMAGE_LIMIT));
    assert(journal::binds(t.creation, b.stored()));
    assert(b.stored().body_wire().len() < cbor::octet_range(4)) by {
        cbor::lemma_octet_ranges();
    }
    cbor::lemma_be_bytes(b.stored().body_wire().len(), 4);
    assert(b.stored().frame_wire().len() <= 1005);
    assert(restore::binding_fault(b, t.creation) is None);
    assert(observations::names_session(b.identity));
}

/// An intent that was prepared can be written down.
pub proof fn law_prepared_stays_compact(t: Notes, intent: Intent, kept: OperationEntry)
    requires
        compact(t),
        t.prepare_fault(intent) is None,
        kept.intent.agrees(intent),
        kept.receipt is None,
    ensures
        compact(Notes { operations: t.operations.push(kept), ..t }),
{
    reveal(compact);
    storage::lemma_intent_carries(kept.intent, intent, t.bound->0.identity);
}

/// A receipt that was recorded can be written down.
pub proof fn law_receipt_stays_compact(t: Notes, receipt: OperationReceipt, next: Notes)
    requires
        compact(t),
        t.receipt_recorded(receipt) == Ok::<Notes, Fault>(next),
    ensures
        compact(next),
{
    reveal(compact);
    reveal(Notes::receipt_committed);
    table::lemma_index_where(t.operations, journal::is_intent(receipt.operation.0@));
}

/// A manifest that was kept can be written down.
#[verifier::spinoff_prover]
#[verifier::rlimit(40)]
pub proof fn law_manifest_stays_compact(t: Notes, m: Manifest, next: Notes)
    requires
        compact(t),
        t.keep_fault(m) is None,
        t.keeps(m, next),
    ensures
        compact(next),
{
    reveal(compact);
    if t.manifest_at(m.work) >= t.manifests.len() {
        let kept = next.manifests.last();
        assert(kept.wire() == m.wire()) by {
            Manifest::agrees_carries(&kept, &m);
        }
        assert(m.wire().len() <= MAX_CONTROL_LIMIT);
    }
}

/// Work that was observed can be written down, and so can its manifest.
pub proof fn law_observation_stays_compact(t: Notes, incoming: ObservedWork, next: Notes)
    requires
        compact(t),
        t.observe_fault(incoming) is None,
        !t.seen_later(incoming),
        t.notes_view(incoming, next),
        match incoming.view.manifest {
            Some(m) => t.keeps(m, Notes { observations: t.observations, ..next }),
            None => next == (Notes { observations: next.observations, ..t }),
        },
    ensures
        compact(next),
{
    reveal(compact);
    let at = t.observed_at(incoming.view.work);
    table::lemma_index_where(t.observations, journal::is_observed(incoming.view.work));
    if incoming.view.manifest is Some {
        law_manifest_stays_compact(
            t,
            incoming.view.manifest->0,
            Notes { observations: t.observations, ..next },
        );
    }
    let mid = Notes { observations: t.observations, ..next };
    assert(compact(mid));
    if at < t.observations.len() {
        ObservedWork::agrees_carries(&next.observations[at], &incoming);
    } else {
        ObservedWork::agrees_carries(&next.observations.last(), &incoming);
    }
    assert forall|i: int| 0 <= i < next.operations.len() implies entry_fits(
        #[trigger] next.operations[i],
        next.bound->0.identity,
    ) by {
        assert(mid.operations[i] == next.operations[i]);
    }
    assert forall|i: int| 0 <= i < next.manifests.len() implies (
    #[trigger] next.manifests[i]).wire().len() <= MAX_CONTROL_LIMIT by {
        assert(mid.manifests[i] == next.manifests[i]);
    }
}

/// An output that was selected can be written down, and so can its manifest.
pub proof fn law_selection_stays_compact(t: Notes, m: Manifest, index: OutputIndex, next: Notes)
    requires
        compact(t),
        t.select_fault(m, index) is None,
        t.keeps(m, Notes { references: t.references, ..next }),
        t.selects(m, index, next),
    ensures
        compact(next),
{
    reveal(compact);
    let mid = Notes { references: t.references, ..next };
    law_manifest_stays_compact(t, m, mid);
    assert forall|i: int| 0 <= i < next.operations.len() implies entry_fits(
        #[trigger] next.operations[i],
        next.bound->0.identity,
    ) by {
        assert(mid.operations[i] == next.operations[i]);
    }
    assert forall|i: int| 0 <= i < next.manifests.len() implies (
    #[trigger] next.manifests[i]).wire().len() <= MAX_CONTROL_LIMIT by {
        assert(mid.manifests[i] == next.manifests[i]);
    }
    assert forall|i: int| 0 <= i < next.observations.len() implies (
    #[trigger] next.observations[i]).wire().len() <= MAX_CONTROL_LIMIT by {
        assert(mid.observations[i] == next.observations[i]);
    }
}

/// A closure that was recorded can be written down.
pub proof fn law_checkpoint_stays_compact(t: Notes, summary: ScopeSummary)
    requires
        compact(t),
        t.checkpoint_fault(summary) is None,
    ensures
        compact(t.covered(summary)),
{
    reveal(compact);
    reveal(Notes::coverage_fault);
}

proof fn lemma_saved(t: Notes, p: PageFacts, n: int)
    requires
        t.page_saved(p, n) is Ok,
    ensures
        t.page_saved(p, n)->Ok_0 == (Notes { members: t.page_saved(p, n)->Ok_0.members, ..t }),
    decreases n,
{
    if n > 0 {
        lemma_saved(t, p, n - 1);
    }
}

/// A page that was taken in can be written down.
pub proof fn law_page_stays_compact(t: Notes, p: PageFacts, next: Notes, r: ScopeObservation)
    requires
        compact(t),
        t.page_taken(p) == Ok::<(Notes, ScopeObservation), Fault>((next, r)),
    ensures
        compact(next),
{
    reveal(compact);
    reveal(Notes::page_taken);
    lemma_saved(t, p, p.entries.len() as int);
}

} // verus!
