//! What is recorded keeps the notes passing the audit.

use super::super::authority::store::Fault;
use super::super::authority::table;
use super::super::commitments::Mutation;
use super::super::numbers::{Id, Number, OutputIndex};
use super::super::records::{Manifest, OperationReceipt, Outcome, ScopeSummary, WorkKey, WorkView};
use super::super::wire::{self, Wire};
use super::alike;
use super::journal::{self, Notes, OperationEntry};
use super::known;
use super::observations;
use super::pages::{self, PageFacts};
use super::receipts;
use super::records::{ObservedWork, ScopeMember, ScopeObservation};
use super::storage::{self, Intent};
use vstd::prelude::*;

verus! {

/// Every row stands.
#[verifier::opaque]
pub open spec fn sound(t: Notes) -> bool {
    &&& t.operations.len() <= t.limits.operations.0
    &&& t.operations.len() > 0 ==> t.bound is Some
    &&& forall|i: int|
        0 <= i < t.operations.len() ==> t.entry_check()(#[trigger] t.operations[i]) is None
    &&& t.observations.len() <= t.limits.observations.0
    &&& forall|i: int|
        0 <= i < t.observations.len() ==> t.stands()(#[trigger] t.observations[i]) is None
    &&& t.manifests.len() <= t.limits.observations.0
    &&& forall|i: int|
        0 <= i < t.manifests.len() ==> t.manifest_problem(#[trigger] t.manifests[i]) is None
    &&& t.references.len() <= t.limits.observations.0
    &&& forall|i: int|
        0 <= i < t.references.len() ==> t.reference_check()(#[trigger] t.references[i]) is None
    &&& t.scopes.len() <= t.limits.observations.0
    &&& t.members.len() <= t.limits.observations.0
    &&& t.coverage.len() <= t.limits.observations.0
    &&& forall|i: int|
        0 <= i < t.scopes.len() ==> t.scope_stands()(#[trigger] t.scopes[i]) is None
    &&& t.adopted()
    &&& forall|i: int|
        0 <= i < t.members.len() ==> t.member_stands()(#[trigger] t.members[i]) is None
}

/// Notes pass the audit exactly where every row stands: how rows relate follows.
pub proof fn lemma_sound(t: Notes)
    ensures
        t.audit_fault() is None <==> sound(t),
{
    reveal(sound);
    reveal(Notes::audit_fault);
    table::lemma_first_fault_none(t.operations, t.entry_check());
    table::lemma_first_fault_none(t.observations, t.stands());
    table::lemma_first_fault_none(t.manifests, t.published());
    table::lemma_first_fault_none(t.references, t.reference_check());
    let rows = t.scopes.reverse();
    table::lemma_first_fault_none(rows, t.scope_stands());
    table::lemma_first_fault_none(t.members, t.member_stands());
    if t.audit_fault() is None {
        assert forall|i: int| 0 <= i < t.manifests.len() implies t.manifest_problem(
            #[trigger] t.manifests[i],
        ) is None by {
            assert(t.published()(t.manifests[i]) is None);
        }
        assert forall|i: int| 0 <= i < t.scopes.len() implies t.scope_stands()(
            #[trigger] t.scopes[i],
        ) is None by {
            assert(rows[rows.len() - 1 - i] == t.scopes[i]);
        }
    }
    if sound(t) {
        assert forall|i: int| 0 <= i < t.manifests.len() implies t.published()(
            #[trigger] t.manifests[i],
        ) is None by {}
        assert forall|i: int| 0 <= i < rows.len() implies t.scope_stands()(
            #[trigger] rows[i],
        ) is None by {
            assert(rows[i] == t.scopes[rows.len() - 1 - i]);
        }
        lemma_related(t);
    }
}

/// All that a sound journal is made of.
proof fn lemma_all_stand(t: Notes)
    requires
        t.operations.len() <= t.limits.operations.0,
        t.operations.len() > 0 ==> t.bound is Some,
        forall|i: int|
        0 <= i < t.operations.len() ==> t.entry_check()(#[trigger] t.operations[i]) is None,
        t.observations.len() <= t.limits.observations.0,
        forall|i: int|
        0 <= i < t.observations.len() ==> t.stands()(#[trigger] t.observations[i]) is None,
        t.manifests.len() <= t.limits.observations.0,
        forall|i: int|
        0 <= i < t.manifests.len() ==> t.manifest_problem(#[trigger] t.manifests[i]) is None,
        t.references.len() <= t.limits.observations.0,
        forall|i: int|
        0 <= i < t.references.len() ==> t.reference_check()(#[trigger] t.references[i]) is None,
        t.scopes.len() <= t.limits.observations.0,
        t.members.len() <= t.limits.observations.0,
        t.coverage.len() <= t.limits.observations.0,
        forall|i: int|
        0 <= i < t.scopes.len() ==> t.scope_stands()(#[trigger] t.scopes[i]) is None,
        t.adopted(),
        forall|i: int|
        0 <= i < t.members.len() ==> t.member_stands()(#[trigger] t.members[i]) is None,
    ensures
        sound(t),
        t.audit_fault() is None,
{
    reveal(sound);
    lemma_sound(t);
}

proof fn lemma_sound_bounds(t: Notes)
    requires
        sound(t),
    ensures
        t.operations.len() <= t.limits.operations.0,
        t.operations.len() > 0 ==> t.bound is Some,
        t.observations.len() <= t.limits.observations.0,
        t.manifests.len() <= t.limits.observations.0,
        t.references.len() <= t.limits.observations.0,
        t.scopes.len() <= t.limits.observations.0,
        t.members.len() <= t.limits.observations.0,
        t.coverage.len() <= t.limits.observations.0,
        t.adopted(),
{
    reveal(sound);
}

pub proof fn lemma_sound_entry(t: Notes, i: int)
    requires
        sound(t),
        0 <= i < t.operations.len(),
    ensures
        t.entry_check()(t.operations[i]) is None,
{
    reveal(sound);
}

pub proof fn lemma_sound_observation(t: Notes, i: int)
    requires
        sound(t),
        0 <= i < t.observations.len(),
    ensures
        t.stands()(t.observations[i]) is None,
{
    reveal(sound);
}

pub proof fn lemma_sound_manifest(t: Notes, i: int)
    requires
        sound(t),
        0 <= i < t.manifests.len(),
    ensures
        t.manifest_problem(t.manifests[i]) is None,
{
    reveal(sound);
}

pub proof fn lemma_sound_reference(t: Notes, i: int)
    requires
        sound(t),
        0 <= i < t.references.len(),
    ensures
        t.reference_check()(t.references[i]) is None,
{
    reveal(sound);
}

proof fn lemma_sound_scope(t: Notes, i: int)
    requires
        sound(t),
        0 <= i < t.scopes.len(),
    ensures
        t.scope_stands()(t.scopes[i]) is None,
{
    reveal(sound);
}

pub proof fn lemma_sound_member(t: Notes, i: int)
    requires
        sound(t),
        0 <= i < t.members.len(),
    ensures
        t.member_stands()(t.members[i]) is None,
{
    reveal(sound);
}

/// Where every row stands, the rows fit together.
proof fn lemma_related(t: Notes)
    requires
        sound(t),
    ensures
        t.relations_fault() is None,
{
    reveal(Notes::relations_fault);
    table::lemma_first_fault_none(t.scopes, t.place_check());
    assert forall|i: int| 0 <= i < t.scopes.len() implies t.place_check()(
        #[trigger] t.scopes[i],
    ) is None by {
        lemma_sound_scope(t, i);
    }
    table::lemma_first_fault_none(t.observations, t.view_check());
    assert forall|i: int| 0 <= i < t.observations.len() implies t.view_check()(
        #[trigger] t.observations[i],
    ) is None by {
        reveal(Notes::view_problem);
        lemma_sound_observation(t, i);
    }
    table::lemma_first_fault_none(t.manifests, t.manifest_check());
    assert forall|i: int| 0 <= i < t.manifests.len() implies t.manifest_check()(
        #[trigger] t.manifests[i],
    ) is None by {
        reveal(Notes::manifest_problem);
        lemma_sound_manifest(t, i);
    }
    table::lemma_first_fault_none(t.operations, t.work_check());
    assert forall|i: int| 0 <= i < t.operations.len() implies t.work_check()(
        #[trigger] t.operations[i],
    ) is None by {
        reveal(Notes::receipt_problem);
        lemma_sound_entry(t, i);
    }
}

/// The audit passes where its parts do.
proof fn lemma_parts(t: Notes)
    requires
        t.operations_fault() is None,
        t.observations_fault() is None,
        t.references_fault() is None,
        t.scopes.len() <= t.limits.observations.0,
        t.members.len() <= t.limits.observations.0,
        t.coverage.len() <= t.limits.observations.0,
        forall|i: int|
            0 <= i < t.scopes.len() ==> t.scope_stands()(#[trigger] t.scopes[i]) is None,
        t.adopted(),
        forall|i: int|
            0 <= i < t.members.len() ==> t.member_stands()(#[trigger] t.members[i]) is None,
    ensures
        t.audit_fault() is None,
{
    table::lemma_first_fault_none(t.operations, t.entry_check());
    table::lemma_first_fault_none(t.observations, t.stands());
    table::lemma_first_fault_none(t.manifests, t.published());
    table::lemma_first_fault_none(t.references, t.reference_check());
    assert forall|i: int| 0 <= i < t.manifests.len() implies t.manifest_problem(
        #[trigger] t.manifests[i],
    ) is None by {
        assert(t.published()(t.manifests[i]) is None);
    }
    lemma_all_stand(t);
}

/// Notes with the same scopes, members and operations.
pub proof fn lemma_framed_by(a: Notes, b: Notes)
    requires
        a.creation == b.creation,
        a.limits == b.limits,
        a.bound == b.bound,
        a.scopes == b.scopes,
        a.members == b.members,
        a.operations == b.operations,
    ensures
        alike::framed(a, b),
{
    reveal(alike::framed);
    a.bound->0.identity.fields().agrees_reflexive();
    assert forall|i: int| 0 <= i < a.operations.len() implies alike::alike_entries(
        #[trigger] a.operations[i],
        b.operations[i],
    ) by {
        alike::lemma_intent_reflexive(a.operations[i].intent);
    }
}

/// Notes that also hold the same observations.
pub proof fn lemma_seen_by(a: Notes, b: Notes)
    requires
        alike::framed(a, b),
        a.observations == b.observations,
    ensures
        alike::seen(a, b),
{
    reveal(alike::seen);
    assert forall|i: int| 0 <= i < a.observations.len() implies (
    #[trigger] a.observations[i]).agrees(&b.observations[i]) by {
        a.observations[i].agrees_reflexive();
    }
}

/// Notes that also hold the same manifests.
pub proof fn lemma_alike_by(a: Notes, b: Notes)
    requires
        alike::seen(a, b),
        a.manifests == b.manifests,
    ensures
        alike::alike(a, b),
{
    reveal(alike::alike);
    assert forall|i: int| 0 <= i < a.manifests.len() implies (#[trigger] a.manifests[i]).agrees(
        &b.manifests[i],
    ) by {
        a.manifests[i].agrees_reflexive();
    }
}

/// What a row was found by finds it among more rows.
pub proof fn lemma_index_kept<T>(s: Seq<T>, p: spec_fn(T) -> bool, x: T)
    ensures
        table::index_where(s, p) < s.len() ==> table::index_where(s.push(x), p)
            == table::index_where(s, p),
        table::index_where(s, p) >= s.len() && p(x) ==> table::index_where(s.push(x), p) == s.len(),
        table::index_where(s, p) >= s.len() && !p(x) ==> table::index_where(s.push(x), p)
            == s.len() + 1,
{
    let t = s.push(x);
    table::lemma_index_where(s, p);
    let k = table::index_where(s, p);
    assert forall|j: int| 0 <= j < k implies !p(#[trigger] t[j]) by {
        assert(!p(s[j]));
    }
    if k < s.len() {
        table::lemma_index_unique(t, p, k);
    } else if p(x) {
        table::lemma_index_unique(t, p, s.len() as int);
    } else {
        assert forall|j: int| 0 <= j < t.len() implies !p(#[trigger] t[j]) by {
            if j < s.len() {
                assert(!p(s[j]));
            }
        }
        table::lemma_index_unique(t, p, t.len() as int);
    }
}

/// A member that does not hold up a closure does not once more is closed.
proof fn lemma_open_kept(
    a: Notes,
    b: Notes,
    x: ScopeSummary,
    scope: ScopeObservation,
    summary: ScopeSummary,
    m: ScopeMember,
)
    requires
        alike::alike(a, b),
        b.coverage == a.coverage.push(x),
        a.member_open(scope, summary, m) is None,
    ensures
        b.member_open(scope, summary, m) is None,
        a.observed_at(m.work) < a.observations.len(),
        a.view_of(m).state == b.view_of(m).state,
        a.closing_leaf(m) == b.closing_leaf(m),
{
    alike::lemma_alike(a, b);
    alike::lemma_seen(a, b);
    alike::lemma_member_alike(a, b, m);
    alike::lemma_places_alike(a, b, m.work);
    let o = a.observed_at(m.work);
    alike::lemma_observation(a, b, o);
    alike::lemma_view_problem_alike(a, b, a.observations[o], b.observations[o]);
    let v = a.view_of(m);
    let w = b.view_of(m);
    alike::lemma_views_alike(v, w);
    if v.manifest is Some {
        alike::lemma_manifests_alike(v.manifest->0, w.manifest->0);
    }
    if v.child is Some {
        let p = journal::is_coverage(Number((v.child->0).scope.0));
        lemma_index_kept(a.coverage, p, x);
        table::lemma_index_where(a.coverage, p);
    }
}

proof fn lemma_tally_kept(a: Notes, b: Notes, rows: Seq<ScopeMember>)
    requires
        forall|i: int|
            0 <= i < rows.len() ==> a.view_of(#[trigger] rows[i]).state == b.view_of(rows[i]).state
                && a.closing_leaf(rows[i]) == b.closing_leaf(rows[i]),
    ensures
        a.tally(rows) == b.tally(rows),
        a.closing_leaves(rows) == b.closing_leaves(rows),
    decreases rows.len(),
{
    if rows.len() > 0 {
        let front = rows.drop_last();
        assert forall|i: int| 0 <= i < front.len() implies a.view_of(#[trigger] front[i]).state
            == b.view_of(front[i]).state && a.closing_leaf(front[i]) == b.closing_leaf(front[i]) by {
            assert(front[i] == rows[i]);
        }
        lemma_tally_kept(a, b, front);
        assert(a.closing_leaf(rows[rows.len() - 1]) == b.closing_leaf(rows[rows.len() - 1]));
    }
}

/// A closure that stands does so once more is closed.
proof fn lemma_coverage_kept(a: Notes, b: Notes, x: ScopeSummary, summary: ScopeSummary)
    requires
        alike::alike(a, b),
        b.coverage == a.coverage.push(x),
        a.coverage_fault(summary) is None,
    ensures
        b.coverage_fault(summary) is None,
{
    reveal(Notes::coverage_fault);
    alike::lemma_alike(a, b);
    alike::lemma_seen(a, b);
    alike::lemma_framed(a, b);
    let scope = a.scopes[a.scope_at(summary.scope)];
    let rows = a.scope_members(summary.scope);
    alike::lemma_refreshed_alike(a, b, scope);
    let f = a.closing_check(scope, summary);
    let g = b.closing_check(scope, summary);
    table::lemma_first_fault_none(rows, f);
    table::lemma_first_fault_none(rows, g);
    assert forall|i: int| 0 <= i < rows.len() implies g(#[trigger] rows[i]) is None by {
        assert(f(rows[i]) is None);
        lemma_open_kept(a, b, x, scope, summary, rows[i]);
    }
    assert forall|i: int| 0 <= i < rows.len() implies a.view_of(#[trigger] rows[i]).state
        == b.view_of(rows[i]).state && a.closing_leaf(rows[i]) == b.closing_leaf(rows[i]) by {
        assert(f(rows[i]) is None);
        lemma_open_kept(a, b, x, scope, summary, rows[i]);
    }
    lemma_tally_kept(a, b, rows);
}

/// Recording the closure of a scope keeps what passes the audit passing it.
pub proof fn law_checkpoint_keeps_the_audit(t: Notes, summary: ScopeSummary)
    requires
        t.audit_fault() is None,
        t.checkpoint_fault(summary) is None,
    ensures
        t.covered(summary).audit_fault() is None,
{
    let next = t.covered(summary);
    if t.coverage_at(summary.scope) >= t.coverage.len() {
        lemma_sound(t);
        lemma_sound_bounds(t);
        lemma_framed_by(t, next);
        lemma_seen_by(t, next);
        lemma_alike_by(t, next);
        reveal(Notes::audit_fault);
        if t.bound is Some {
            alike::lemma_operations_alike(t, next);
        }
        alike::lemma_observations_alike(t, next);
        alike::lemma_references_alike(t, next);
        assert forall|i: int| 0 <= i < next.scopes.len() implies next.scope_stands()(
            #[trigger] next.scopes[i],
        ) is None by {
            let s = t.scopes[i];
            lemma_sound_scope(t, i);
            alike::lemma_refreshed_alike(t, next, s);
            let p = journal::is_coverage(s.scope);
            lemma_index_kept(t.coverage, p, summary);
            table::lemma_index_where(t.coverage, p);
            let c = t.coverage_at(s.scope);
            if c < t.coverage.len() {
                lemma_coverage_kept(t, next, summary, t.coverage[c]);
            }
            lemma_coverage_kept(t, next, summary, summary);
        }
        assert(next.adopted()) by {
            assert forall|i: int| 0 <= i < next.coverage.len() implies next.scope_at(
                (#[trigger] next.coverage[i]).scope,
            ) < next.scopes.len() by {
                if i < t.coverage.len() {
                    assert(next.coverage[i] == t.coverage[i]);
                } else {
                    reveal(Notes::coverage_fault);
                }
            }
            assert forall|i: int| 0 <= i < next.members.len() implies next.scope_at(
                (#[trigger] next.members[i]).work.scope,
            ) < next.scopes.len() by {
                assert(t.scope_at(t.members[i].work.scope) < t.scopes.len());
            }
        }
        assert forall|i: int| 0 <= i < next.members.len() implies next.member_stands()(
            #[trigger] next.members[i],
        ) is None by {
            lemma_sound_member(t, i);
            alike::lemma_member_alike(t, next, t.members[i]);
        }
        lemma_parts(next);
    }
}

/// A journal that nothing was written into passes the audit, bound or not.
pub proof fn law_new_journal_passes_the_audit(t: Notes)
    requires
        t.operations.len() == 0,
        t.unobserved(),
    ensures
        t.distinct(),
        t.audit_fault() is None,
{
    reveal(journal::works_distinct);
    reveal(Notes::audit_fault);
    reveal(Notes::relations_fault);
    assert(t.scopes.reverse().len() == 0);
}

/// Preparing an intent keeps what passes the audit passing it.
pub proof fn law_preparation_keeps_the_audit(t: Notes, intent: Intent, kept: OperationEntry)
    requires
        t.audit_fault() is None,
        t.prepare_fault(intent) is None,
        t.operation_at(intent.operation.0@) >= t.operations.len(),
        kept.receipt is None,
    ensures
        (Notes { operations: t.operations.push(kept), ..t }).audit_fault() is None,
{
    let next = Notes { operations: t.operations.push(kept), ..t };
    assert(alike::framed(t, next)) by {
        reveal(alike::framed);
        t.bound->0.identity.fields().agrees_reflexive();
        assert forall|i: int| 0 <= i < t.operations.len() implies alike::alike_entries(
            #[trigger] t.operations[i],
            next.operations[i],
        ) by {
            alike::lemma_intent_reflexive(t.operations[i].intent);
        }
    }
    lemma_seen_by(t, next);
    lemma_alike_by(t, next);
    alike::law_alike_notes_are_audited_alike(t, next);
}

proof fn lemma_observation_found(t: Notes, i: int)
    requires
        t.distinct(),
        0 <= i < t.observations.len(),
    ensures
        t.observed_at(t.observations[i].view.work) == i,
{
    reveal(journal::works_distinct);
    let p = journal::is_observed(t.observations[i].view.work);
    assert forall|j: int| 0 <= j < i implies !p(#[trigger] t.observations[j]) by {}
    table::lemma_index_unique(t.observations, p, i);
}

proof fn lemma_manifest_found(t: Notes, i: int)
    requires
        t.distinct(),
        0 <= i < t.manifests.len(),
    ensures
        t.manifest_at(t.manifests[i].work) == i,
{
    reveal(journal::works_distinct);
    let p = journal::is_manifest(t.manifests[i].work);
    assert forall|j: int| 0 <= j < i implies !p(#[trigger] t.manifests[j]) by {}
    table::lemma_index_unique(t.manifests, p, i);
}

proof fn lemma_scope_found(t: Notes, i: int)
    requires
        t.ordered(),
        0 <= i < t.scopes.len(),
    ensures
        t.scope_at(t.scopes[i].scope) == i,
{
    let p = journal::is_scope(t.scopes[i].scope);
    assert forall|j: int| 0 <= j < i implies !p(#[trigger] t.scopes[j]) by {}
    table::lemma_index_unique(t.scopes, p, i);
}

proof fn lemma_member_found(t: Notes, i: int)
    requires
        t.ordered(),
        0 <= i < t.members.len(),
    ensures
        t.member_of(t.members[i].work) == Ok::<Option<int>, Fault>(Some(i)),
{
    let work = t.members[i].work;
    let p = journal::is_member(work.scope, work.entity);
    assert forall|j: int| 0 <= j < i implies !p(#[trigger] t.members[j]) by {
        assert(known::before(t.members[j].work, t.members[i].work));
    }
    table::lemma_index_unique(t.members, p, i);
}

/// The second notes hold one manifest more, of work that had none, and nothing objects to it.
pub open spec fn published(t: Notes, next: Notes, k: Manifest) -> bool {
    &&& t.ordered()
    &&& t.distinct()
    &&& next == (Notes { manifests: t.manifests.push(k), ..t })
    &&& t.manifest_at(k.work) >= t.manifests.len()
    &&& t.manifest_problem(k) is None
}

proof fn lemma_published_places(t: Notes, next: Notes, k: Manifest, work: WorkKey)
    requires
        published(t, next, k),
    ensures
        alike::framed(t, next),
        alike::seen(t, next),
        0 <= t.manifest_at(work) <= t.manifests.len(),
        t.manifest_at(work) < t.manifests.len() ==> next.manifest_at(work) == t.manifest_at(work)
            && next.manifests[t.manifest_at(work)] == t.manifests[t.manifest_at(work)],
        t.manifest_at(work) >= t.manifests.len() && work == k.work ==> next.manifest_at(work)
            == t.manifests.len() && next.manifests[t.manifests.len() as int] == k,
        t.manifest_at(work) >= t.manifests.len() && work != k.work ==> next.manifest_at(work)
            == next.manifests.len(),
{
    lemma_framed_by(t, next);
    lemma_seen_by(t, next);
    lemma_index_kept(t.manifests, journal::is_manifest(work), k);
    table::lemma_index_where(t.manifests, journal::is_manifest(work));
}

proof fn lemma_published_entry(t: Notes, next: Notes, k: Manifest, i: int)
    requires
        published(t, next, k),
        0 <= i < t.operations.len(),
        t.entry_check()(t.operations[i]) is None,
    ensures
        next.entry_check()(t.operations[i]) is None,
{
    let e = t.operations[i];
    if e.receipt is Some {
        let receipt = e.receipt->0;
        reveal(Notes::receipt_problem);
        let work = receipts::target_of(e.intent);
        lemma_published_places(t, next, k, work->0);
        alike::lemma_intent_reflexive(e.intent);
        alike::lemma_scope_receipt_alike(t, next, e.intent, e.intent, receipt);
        let f = t.pairs(e.intent, receipt);
        let g = next.pairs(e.intent, receipt);
        assert forall|j: int| 0 <= j < t.operations.len() implies f(#[trigger] t.operations[j])
            == g(next.operations[j]) by {}
        alike::lemma_faults_alike(t.operations, f, next.operations, g);
        if work == Some(k.work) {
            reveal(Notes::manifest_problem);
            let h = t.manifest_receipts(k);
            table::lemma_first_fault_none(t.operations, h);
            assert(h(t.operations[i]) is None);
        }
    }
}

proof fn lemma_published_shown(t: Notes, next: Notes, k: Manifest, o: ObservedWork)
    requires
        published(t, next, k),
        t.view_problem(o) is None,
        o.view.work == k.work ==> observations::manifest_fits_view(k, o.view),
    ensures
        next.view_problem(o) is None,
{
    reveal(Notes::view_problem);
    let v = o.view;
    lemma_published_places(t, next, k, v.work);
    v.agrees_reflexive();
    alike::lemma_views_alike(v, v);
    alike::lemma_scope_view_alike(t, next, v, v);
    if v.manifest is Some {
        v.manifest->0.agrees_reflexive();
        alike::lemma_manifest_problem_alike(t, next, v.manifest->0, v.manifest->0);
    }
    let f = t.view_receipts(v);
    let g = next.view_receipts(v);
    assert forall|j: int| 0 <= j < t.operations.len() implies f(#[trigger] t.operations[j]) == g(
        next.operations[j],
    ) by {}
    alike::lemma_faults_alike(t.operations, f, next.operations, g);
}

proof fn lemma_published_view(t: Notes, next: Notes, k: Manifest, i: int)
    requires
        published(t, next, k),
        0 <= i < t.observations.len(),
        t.view_problem(t.observations[i]) is None,
    ensures
        next.view_problem(t.observations[i]) is None,
{
    if t.observations[i].view.work == k.work {
        reveal(Notes::manifest_problem);
        lemma_observation_found(t, i);
    }
    lemma_published_shown(t, next, k, t.observations[i]);
}

proof fn lemma_published_stands(t: Notes, next: Notes, k: Manifest, i: int)
    requires
        published(t, next, k),
        0 <= i < t.observations.len(),
        t.stands()(t.observations[i]) is None,
    ensures
        next.stands()(t.observations[i]) is None,
{
    lemma_published_places(t, next, k, t.observations[i].view.work);
    lemma_published_view(t, next, k, i);
}

proof fn lemma_published_member(t: Notes, next: Notes, k: Manifest, i: int)
    requires
        published(t, next, k),
        0 <= i < t.members.len(),
        t.member_fault(t.members[i]) is None,
    ensures
        next.member_fault(t.members[i]) is None,
{
    let m = t.members[i];
    lemma_published_places(t, next, k, m.work);
    alike::lemma_courses_alike(t, next, m.work);
    let f = t.hint_check(m.work, m.terminal->0);
    let g = next.hint_check(m.work, m.terminal->0);
    assert forall|j: int| 0 <= j < t.operations.len() implies f(#[trigger] t.operations[j]) == g(
        next.operations[j],
    ) by {}
    alike::lemma_faults_alike(t.operations, f, next.operations, g);
    if m.work == k.work {
        reveal(Notes::manifest_problem);
        lemma_member_found(t, i);
    }
}

proof fn lemma_published_scope(t: Notes, next: Notes, k: Manifest, i: int)
    requires
        published(t, next, k),
        0 <= i < t.scopes.len(),
        t.scope_fault(t.scopes[i]) is None,
    ensures
        next.scope_fault(t.scopes[i]) is None,
{
    reveal(Notes::refreshed);
    let s = t.scopes[i];
    lemma_published_places(t, next, k, k.work);
    alike::lemma_place_alike(t, next, s);
    assert forall|j: int| 0 <= j < t.operations.len() implies alike::alike_entries(
        #[trigger] t.operations[j],
        next.operations[j],
    ) by {
        alike::lemma_intent_reflexive(t.operations[j].intent);
    }
    alike::lemma_applied_alike(t, next, t.operations, next.operations, s);
    let applied = t.with_declarations(t.operations, s)->Ok_0;
    alike::lemma_seal_alike(t, next, applied);
    let f = t.declared_check(s);
    let g = next.declared_check(s);
    assert forall|j: int| 0 <= j < t.operations.len() implies f(#[trigger] t.operations[j]) == g(
        next.operations[j],
    ) by {
        let intent = t.operations[j].intent;
        alike::lemma_intent_reflexive(intent);
        alike::lemma_declaration_alike(t, next, s, intent, intent);
    }
    alike::lemma_faults_alike(t.operations, f, next.operations, g);
    let f = t.observed_check(s);
    let g = next.observed_check(s);
    assert forall|j: int| 0 <= j < t.observations.len() implies f(#[trigger] t.observations[j])
        == g(next.observations[j]) by {}
    alike::lemma_faults_alike(t.observations, f, next.observations, g);
    let f = t.published_check(s);
    let g = next.published_check(s);
    table::lemma_first_fault_none(t.manifests, f);
    table::lemma_first_fault_none(next.manifests, g);
    assert forall|j: int| 0 <= j < next.manifests.len() implies g(
        #[trigger] next.manifests[j],
    ) is None by {
        if j < t.manifests.len() {
            assert(f(t.manifests[j]) is None);
        } else {
            reveal(Notes::manifest_problem);
            lemma_scope_found(t, i);
            assert(t.may_be_member(k.work));
        }
    }
}

/// A closure stands where its scope does, and where its members close as they did.
proof fn lemma_closure_kept(a: Notes, b: Notes, summary: ScopeSummary)
    requires
        a.coverage_fault(summary) is None,
        b.scopes[b.scope_at(summary.scope)] == a.scopes[a.scope_at(summary.scope)],
        b.scope_at(summary.scope) < b.scopes.len(),
        b.scope_members(summary.scope) == a.scope_members(summary.scope),
        b.scope_fault(a.scopes[a.scope_at(summary.scope)]) is None,
        forall|i: int|
            0 <= i < a.scope_members(summary.scope).len() ==> closes_as(
                a,
                b,
                a.scopes[a.scope_at(summary.scope)],
                summary,
                #[trigger] a.scope_members(summary.scope)[i],
            ),
    ensures
        b.coverage_fault(summary) is None,
{
    reveal(Notes::coverage_fault);
    let scope = a.scopes[a.scope_at(summary.scope)];
    let rows = a.scope_members(summary.scope);
    let f = a.closing_check(scope, summary);
    let g = b.closing_check(scope, summary);
    table::lemma_first_fault_none(rows, f);
    table::lemma_first_fault_none(rows, g);
    assert forall|i: int| 0 <= i < rows.len() implies g(#[trigger] rows[i]) is None by {
        assert(f(rows[i]) is None);
        assert(closes_as(a, b, scope, summary, rows[i]));
    }
    assert forall|i: int| 0 <= i < rows.len() implies a.view_of(#[trigger] rows[i]).state
        == b.view_of(rows[i]).state && a.closing_leaf(rows[i]) == b.closing_leaf(rows[i]) by {
        assert(f(rows[i]) is None);
        assert(closes_as(a, b, scope, summary, rows[i]));
    }
    lemma_tally_kept(a, b, rows);
}

/// A member that does not hold up the closure in the first notes does not in the second, and ends in
/// the same way.
pub open spec fn closes_as(
    a: Notes,
    b: Notes,
    scope: ScopeObservation,
    summary: ScopeSummary,
    m: ScopeMember,
) -> bool {
    a.member_open(scope, summary, m) is None ==> {
        &&& b.member_open(scope, summary, m) is None
        &&& a.view_of(m).state == b.view_of(m).state
        &&& a.closing_leaf(m) == b.closing_leaf(m)
    }
}

/// The members of a scope are among the members.
proof fn lemma_scope_member(t: Notes, scope: Number, i: int) -> (j: int)
    requires
        0 <= i < t.scope_members(scope).len(),
    ensures
        0 <= j < t.members.len(),
        t.members[j] == t.scope_members(scope)[i],
        t.members[j].work.scope == scope,
{
    let p = known::member_of_scope(scope);
    table::lemma_rows_where_member(t.members, p, i);
    choose|j: int|
        0 <= j < t.members.len() && t.members[j] == #[trigger] table::rows_where(t.members, p)[i]
}

proof fn lemma_published_coverage(t: Notes, next: Notes, k: Manifest, summary: ScopeSummary)
    requires
        published(t, next, k),
        t.coverage_fault(summary) is None,
    ensures
        next.coverage_fault(summary) is None,
{
    let at = t.scope_at(summary.scope);
    let scope = t.scopes[at];
    table::lemma_index_where(t.scopes, journal::is_scope(summary.scope));
    assert(at < t.scopes.len() && t.scope_fault(scope) is None) by {
        reveal(Notes::coverage_fault);
    }
    lemma_published_scope(t, next, k, at);
    assert forall|i: int| 0 <= i < t.scope_members(summary.scope).len() implies closes_as(
        t,
        next,
        scope,
        summary,
        #[trigger] t.scope_members(summary.scope)[i],
    ) by {
        let j = lemma_scope_member(t, summary.scope, i);
        let m = t.members[j];
        if t.member_open(scope, summary, m) is None {
            lemma_published_places(t, next, k, m.work);
            lemma_published_member(t, next, k, j);
            table::lemma_index_where(t.observations, journal::is_observed(m.work));
            lemma_published_view(t, next, k, t.observed_at(m.work));
        }
    }
    lemma_closure_kept(t, next, summary);
}

/// Keeping a manifest keeps what passes the audit passing it.
pub proof fn law_manifest_keeps_the_audit(t: Notes, m: Manifest, next: Notes)
    requires
        t.ordered(),
        t.distinct(),
        t.audit_fault() is None,
        t.keep_fault(m) is None,
        t.keeps(m, next),
    ensures
        next.distinct(),
        next.audit_fault() is None,
{
    reveal(journal::works_distinct);
    if t.manifest_at(m.work) >= t.manifests.len() {
        let k = next.manifests.last();
        alike::lemma_manifests_alike(k, m);
        lemma_framed_by(t, t);
        lemma_seen_by(t, t);
        alike::lemma_manifest_problem_alike(t, t, k, m);
        assert(published(t, next, k));
        lemma_sound(t);
        lemma_sound_bounds(t);
        lemma_published_places(t, next, k, k.work);
        let p = journal::is_manifest(k.work);
        table::lemma_index_where(t.manifests, p);
        assert(next.distinct()) by {
            assert forall|i: int, j: int| 0 <= i < j < next.manifests.len() implies (
            #[trigger] next.manifests[i]).work != (#[trigger] next.manifests[j]).work by {
                if j == t.manifests.len() {
                    assert(!p(t.manifests[i]));
                }
            }
        }
        assert forall|i: int| 0 <= i < next.operations.len() implies next.entry_check()(
            #[trigger] next.operations[i],
        ) is None by {
            lemma_sound_entry(t, i);
            lemma_published_entry(t, next, k, i);
        }
        assert forall|i: int| 0 <= i < next.observations.len() implies next.stands()(
            #[trigger] next.observations[i],
        ) is None by {
            lemma_sound_observation(t, i);
            lemma_published_stands(t, next, k, i);
        }
        assert forall|i: int| 0 <= i < next.manifests.len() implies next.manifest_problem(
            #[trigger] next.manifests[i],
        ) is None by {
            let n = next.manifests[i];
            n.agrees_reflexive();
            alike::lemma_manifest_problem_alike(t, next, n, n);
            if i < t.manifests.len() {
                lemma_sound_manifest(t, i);
            }
        }
        assert forall|i: int| 0 <= i < next.references.len() implies next.reference_check()(
            #[trigger] next.references[i],
        ) is None by {
            reveal(Notes::reference_fault);
            let e = t.references[i];
            lemma_sound_reference(t, i);
            lemma_published_places(t, next, k, e.work);
            let n = t.manifests[t.manifest_at(e.work)];
            n.agrees_reflexive();
            alike::lemma_manifest_problem_alike(t, next, n, n);
        }
        assert forall|i: int| 0 <= i < next.scopes.len() implies next.scope_stands()(
            #[trigger] next.scopes[i],
        ) is None by {
            let s = t.scopes[i];
            lemma_sound_scope(t, i);
            lemma_published_scope(t, next, k, i);
            let c = t.coverage_at(s.scope);
            if c < t.coverage.len() {
                lemma_published_coverage(t, next, k, t.coverage[c]);
            }
        }
        assert forall|i: int| 0 <= i < next.members.len() implies next.member_stands()(
            #[trigger] next.members[i],
        ) is None by {
            lemma_sound_member(t, i);
            lemma_published_member(t, next, k, i);
        }
        assert(next.adopted());
        lemma_all_stand(next);
    }
}

/// Selecting an output keeps what passes the audit passing it.
pub proof fn law_selection_keeps_the_audit(t: Notes, m: Manifest, index: OutputIndex, next: Notes)
    requires
        t.ordered(),
        t.distinct(),
        t.audit_fault() is None,
        t.select_fault(m, index) is None,
        t.keeps(m, Notes { references: t.references, ..next }),
        t.selects(m, index, next),
    ensures
        next.distinct(),
        next.audit_fault() is None,
{
    reveal(journal::works_distinct);
    let mid = Notes { references: t.references, ..next };
    law_manifest_keeps_the_audit(t, m, mid);
    if t.reference_at(m.work, index) < t.references.len() {
        assert(next == mid);
    } else {
        lemma_sound(mid);
        lemma_framed_by(mid, next);
        lemma_seen_by(mid, next);
        lemma_alike_by(mid, next);
        let kept = next.references.last();
        assert forall|i: int| 0 <= i < next.references.len() implies next.reference_check()(
            #[trigger] next.references[i],
        ) is None by {
            reveal(Notes::reference_fault);
            let e = next.references[i];
            let p = journal::is_reference(e.work, e.choice.index);
            lemma_index_kept(t.references, p, kept);
            table::lemma_index_where(t.references, p);
            alike::lemma_places_alike(mid, next, e.work);
            let n = mid.manifests[mid.manifest_at(e.work)];
            n.agrees_reflexive();
            alike::lemma_manifest_problem_alike(mid, next, n, n);
            if i < t.references.len() {
                assert(e == mid.references[i]);
                lemma_sound_reference(mid, i);
            } else {
                lemma_selected(t, m, mid);
                alike::lemma_manifests_alike(n, m);
                assert(m.valid()) by {
                    reveal(Notes::manifest_problem);
                }
            }
        }
        table::lemma_first_fault_none(next.references, next.reference_check());
        assert(mid.operations_fault() is None && mid.observations_fault() is None
            && mid.scopes_fault() is None) by {
            reveal(Notes::audit_fault);
        }
        if mid.bound is Some {
            alike::lemma_operations_alike(mid, next);
        }
        alike::lemma_observations_alike(mid, next);
        alike::lemma_scopes_alike(mid, next);
        reveal(Notes::audit_fault);
    }
}

/// A manifest that was kept is found.
pub proof fn lemma_selected(t: Notes, m: Manifest, mid: Notes)
    requires
        sound(mid),
        t.keep_fault(m) is None,
        t.keeps(m, mid),
    ensures
        mid.manifest_at(m.work) < mid.manifests.len(),
        0 <= mid.manifest_at(m.work),
        mid.manifests[mid.manifest_at(m.work)].agrees(&m),
        mid.manifest_problem(mid.manifests[mid.manifest_at(m.work)]) is None,
{
    let p = journal::is_manifest(m.work);
    table::lemma_index_where(mid.manifests, p);
    table::lemma_index_where(t.manifests, p);
    if t.manifest_at(m.work) >= t.manifests.len() {
        let k = mid.manifests.last();
        alike::lemma_manifests_alike(k, m);
        lemma_index_kept(t.manifests, p, k);
    }
    lemma_sound_manifest(mid, mid.manifest_at(m.work));
}

/// The second notes hold an observation more, or a newer one, and nothing objects to it.
pub open spec fn observed(t: Notes, next: Notes, x: ObservedWork) -> bool {
    let at = t.observed_at(x.view.work);
    &&& t.ordered()
    &&& t.distinct()
    &&& sound(t)
    &&& next == (Notes {
        observations: if at < t.observations.len() {
            t.observations.update(at, x)
        } else {
            t.observations.push(x)
        },
        ..t
    })
    &&& t.stands()(x) is None
    &&& at < t.observations.len() && t.observations[at].view.state.terminal()
        ==> t.observations[at].view.agrees(&x.view)
}

proof fn lemma_observed_places(t: Notes, next: Notes, x: ObservedWork, work: WorkKey)
    requires
        observed(t, next, x),
    ensures
        alike::framed(t, next),
        0 <= t.observed_at(work) <= t.observations.len(),
        next.observations.len() >= t.observations.len(),
        work == x.view.work ==> next.observed_at(work) < next.observations.len()
            && next.observations[next.observed_at(work)] == x,
        work != x.view.work && t.observed_at(work) < t.observations.len() ==> next.observed_at(work)
            == t.observed_at(work) && next.observations[t.observed_at(work)]
            == t.observations[t.observed_at(work)],
        work != x.view.work && t.observed_at(work) >= t.observations.len() ==> next.observed_at(
            work,
        ) == next.observations.len(),
        next.manifest_at(work) == t.manifest_at(work),
{
    lemma_framed_by(t, next);
    let p = journal::is_observed(work);
    let at = t.observed_at(x.view.work);
    table::lemma_index_where(t.observations, p);
    table::lemma_index_where(t.observations, journal::is_observed(x.view.work));
    if at < t.observations.len() {
        table::lemma_index_alike(t.observations, p, next.observations);
    } else {
        lemma_index_kept(t.observations, p, x);
    }
}

proof fn lemma_observed_entry(t: Notes, next: Notes, x: ObservedWork, i: int)
    requires
        observed(t, next, x),
        0 <= i < t.operations.len(),
    ensures
        next.entry_check()(t.operations[i]) is None,
{
    let e = t.operations[i];
    lemma_sound_entry(t, i);
    if e.receipt is Some {
        let receipt = e.receipt->0;
        reveal(Notes::receipt_problem);
        let work = receipts::target_of(e.intent);
        lemma_observed_places(t, next, x, work->0);
        alike::lemma_intent_reflexive(e.intent);
        alike::lemma_scope_receipt_alike(t, next, e.intent, e.intent, receipt);
        let f = t.pairs(e.intent, receipt);
        let g = next.pairs(e.intent, receipt);
        assert forall|j: int| 0 <= j < t.operations.len() implies f(#[trigger] t.operations[j])
            == g(next.operations[j]) by {}
        alike::lemma_faults_alike(t.operations, f, next.operations, g);
        if work == Some(x.view.work) {
            reveal(Notes::view_problem);
            let h = t.view_receipts(x.view);
            table::lemma_first_fault_none(t.operations, h);
            assert(h(t.operations[i]) is None);
        }
    }
}

/// Nothing objects to a manifest that fits what is now observed of its work.
proof fn lemma_observed_manifest(t: Notes, next: Notes, x: ObservedWork, m: Manifest)
    requires
        observed(t, next, x),
        t.manifest_problem(m) is None,
        m.work == x.view.work ==> observations::manifest_fits_view(m, x.view),
    ensures
        next.manifest_problem(m) is None,
{
    reveal(Notes::manifest_problem);
    lemma_observed_places(t, next, x, m.work);
    m.agrees_reflexive();
    alike::lemma_scope_manifest_alike(t, next, m, m);
    let f = t.manifest_receipts(m);
    let g = next.manifest_receipts(m);
    assert forall|j: int| 0 <= j < t.operations.len() implies f(#[trigger] t.operations[j]) == g(
        next.operations[j],
    ) by {}
    alike::lemma_faults_alike(t.operations, f, next.operations, g);
}

proof fn lemma_observed_kept(t: Notes, next: Notes, x: ObservedWork, i: int)
    requires
        observed(t, next, x),
        0 <= i < t.manifests.len(),
    ensures
        next.manifest_problem(t.manifests[i]) is None,
{
    let m = t.manifests[i];
    lemma_sound_manifest(t, i);
    if m.work == x.view.work {
        reveal(Notes::view_problem);
        lemma_manifest_found(t, i);
    }
    lemma_observed_manifest(t, next, x, m);
}

/// What stood, and what is now observed, stands.
proof fn lemma_observed_stands(t: Notes, next: Notes, x: ObservedWork, o: ObservedWork)
    requires
        observed(t, next, x),
        o == x || o.view.work != x.view.work,
        t.stands()(o) is None,
    ensures
        next.stands()(o) is None,
{
    reveal(Notes::view_problem);
    let v = o.view;
    lemma_observed_places(t, next, x, v.work);
    v.agrees_reflexive();
    alike::lemma_views_alike(v, v);
    alike::lemma_scope_view_alike(t, next, v, v);
    let f = t.view_receipts(v);
    let g = next.view_receipts(v);
    assert forall|j: int| 0 <= j < t.operations.len() implies f(#[trigger] t.operations[j]) == g(
        next.operations[j],
    ) by {}
    alike::lemma_faults_alike(t.operations, f, next.operations, g);
    if v.manifest is Some {
        let shown = v.manifest->0;
        let kept = t.manifests[t.manifest_at(v.work)];
        alike::lemma_manifests_alike(kept, shown);
        table::lemma_index_where(t.manifests, journal::is_manifest(v.work));
        if o == x {
            alike::lemma_fits_alike(kept, shown, v, v);
        }
        lemma_observed_manifest(t, next, x, shown);
    }
}

proof fn lemma_observed_member(t: Notes, next: Notes, x: ObservedWork, i: int)
    requires
        observed(t, next, x),
        0 <= i < t.members.len(),
    ensures
        next.member_fault(t.members[i]) is None,
{
    let m = t.members[i];
    lemma_sound_member(t, i);
    lemma_observed_places(t, next, x, m.work);
    let f = t.hint_check(m.work, m.terminal->0);
    let g = next.hint_check(m.work, m.terminal->0);
    assert forall|j: int| 0 <= j < t.operations.len() implies f(#[trigger] t.operations[j]) == g(
        next.operations[j],
    ) by {}
    alike::lemma_faults_alike(t.operations, f, next.operations, g);
    if m.work == x.view.work {
        reveal(Notes::view_problem);
        lemma_member_found(t, i);
    }
}

proof fn lemma_observed_place(t: Notes, next: Notes, x: ObservedWork, i: int)
    requires
        observed(t, next, x),
        0 <= i < t.scopes.len(),
    ensures
        next.place_fault(t.scopes[i]) is None,
{
    let s = t.scopes[i];
    lemma_sound_scope(t, i);
    if s.parent is Some {
        let work = s.parent->0;
        lemma_observed_places(t, next, x, work);
        let f = t.child_check(s, work);
        let g = next.child_check(s, work);
        assert forall|j: int| 0 <= j < t.operations.len() implies f(#[trigger] t.operations[j])
            == g(next.operations[j]) by {}
        alike::lemma_faults_alike(t.operations, f, next.operations, g);
        if work == x.view.work {
            reveal(Notes::view_problem);
            let p = known::has_parent(work);
            table::lemma_index_where(t.scopes, p);
            let other = t.child_at(work);
            assert(p(s));
            if other >= t.scopes.len() {
                assert(!p(t.scopes[i]));
            }
            lemma_scope_found(t, i);
            lemma_scope_found(t, other);
        }
    }
}

proof fn lemma_observed_scope(t: Notes, next: Notes, x: ObservedWork, i: int)
    requires
        observed(t, next, x),
        0 <= i < t.scopes.len(),
    ensures
        next.scope_fault(t.scopes[i]) is None,
{
    reveal(Notes::refreshed);
    let s = t.scopes[i];
    lemma_sound_scope(t, i);
    lemma_observed_places(t, next, x, x.view.work);
    lemma_observed_place(t, next, x, i);
    assert forall|j: int| 0 <= j < t.operations.len() implies alike::alike_entries(
        #[trigger] t.operations[j],
        next.operations[j],
    ) by {
        alike::lemma_intent_reflexive(t.operations[j].intent);
    }
    alike::lemma_applied_alike(t, next, t.operations, next.operations, s);
    let applied = t.with_declarations(t.operations, s)->Ok_0;
    alike::lemma_seal_alike(t, next, applied);
    let f = t.declared_check(s);
    let g = next.declared_check(s);
    assert forall|j: int| 0 <= j < t.operations.len() implies f(#[trigger] t.operations[j]) == g(
        next.operations[j],
    ) by {
        let intent = t.operations[j].intent;
        alike::lemma_intent_reflexive(intent);
        alike::lemma_declaration_alike(t, next, s, intent, intent);
    }
    alike::lemma_faults_alike(t.operations, f, next.operations, g);
    let f = t.published_check(s);
    let g = next.published_check(s);
    assert forall|j: int| 0 <= j < t.manifests.len() implies f(#[trigger] t.manifests[j]) == g(
        next.manifests[j],
    ) by {}
    alike::lemma_faults_alike(t.manifests, f, next.manifests, g);
    let f = t.observed_check(s);
    let g = next.observed_check(s);
    table::lemma_first_fault_none(t.observations, f);
    table::lemma_first_fault_none(next.observations, g);
    assert forall|j: int| 0 <= j < next.observations.len() implies g(
        #[trigger] next.observations[j],
    ) is None by {
        if next.observations[j] == x {
            reveal(Notes::view_problem);
            lemma_scope_found(t, i);
            assert(t.may_be_member(x.view.work));
        } else {
            assert(next.observations[j] == t.observations[j]);
            assert(f(t.observations[j]) is None);
        }
    }
}

/// Work that had ended shows the same end.
proof fn lemma_observed_leaf(t: Notes, next: Notes, x: ObservedWork, m: ScopeMember)
    requires
        observed(t, next, x),
        t.observed_at(m.work) < t.observations.len(),
        t.view_of(m).state.terminal(),
    ensures
        next.observed_at(m.work) < next.observations.len(),
        alike::same_course(t.view_of(m), next.view_of(m)),
        t.view_of(m).manifest is Some == next.view_of(m).manifest is Some,
        t.view_of(m).manifest is Some ==> t.view_of(m).manifest->0.valid() == next.view_of(
            m,
        ).manifest->0.valid() && t.view_of(m).manifest->0.wire() == next.view_of(
            m,
        ).manifest->0.wire(),
        t.closing_leaf(m) == next.closing_leaf(m),
{
    lemma_observed_places(t, next, x, m.work);
    let v = t.view_of(m);
    let w = next.view_of(m);
    v.agrees_reflexive();
    assert(v.agrees(&w));
    alike::lemma_views_alike(v, w);
    if v.manifest is Some {
        alike::lemma_manifests_alike(v.manifest->0, w.manifest->0);
    }
}

/// What is now observed of observed work stands.
proof fn lemma_observed_now(t: Notes, next: Notes, x: ObservedWork, work: WorkKey)
    requires
        observed(t, next, x),
        t.observed_at(work) < t.observations.len(),
    ensures
        next.observed_at(work) < next.observations.len(),
        next.view_problem(next.observations[next.observed_at(work)]) is None,
{
    lemma_observed_places(t, next, x, work);
    table::lemma_index_where(t.observations, journal::is_observed(work));
    if work == x.view.work {
        lemma_observed_stands(t, next, x, x);
    } else {
        let o = t.observations[t.observed_at(work)];
        lemma_sound_observation(t, t.observed_at(work));
        lemma_observed_stands(t, next, x, o);
    }
}

proof fn lemma_observed_closes(
    t: Notes,
    next: Notes,
    x: ObservedWork,
    scope: ScopeObservation,
    summary: ScopeSummary,
    j: int,
)
    requires
        observed(t, next, x),
        0 <= j < t.members.len(),
    ensures
        closes_as(t, next, scope, summary, t.members[j]),
{
    let m = t.members[j];
    if t.member_open(scope, summary, m) is None {
        lemma_observed_member(t, next, x, j);
        lemma_observed_now(t, next, x, m.work);
        lemma_observed_leaf(t, next, x, m);
    }
}

proof fn lemma_observed_coverage(t: Notes, next: Notes, x: ObservedWork, summary: ScopeSummary)
    requires
        observed(t, next, x),
        t.coverage_fault(summary) is None,
    ensures
        next.coverage_fault(summary) is None,
{
    let at = t.scope_at(summary.scope);
    let scope = t.scopes[at];
    table::lemma_index_where(t.scopes, journal::is_scope(summary.scope));
    assert(at < t.scopes.len()) by {
        reveal(Notes::coverage_fault);
    }
    lemma_observed_scope(t, next, x, at);
    assert forall|i: int| 0 <= i < t.scope_members(summary.scope).len() implies closes_as(
        t,
        next,
        scope,
        summary,
        #[trigger] t.scope_members(summary.scope)[i],
    ) by {
        let j = lemma_scope_member(t, summary.scope, i);
        lemma_observed_closes(t, next, x, scope, summary, j);
    }
    lemma_closure_kept(t, next, summary);
}

proof fn lemma_observed_sound(t: Notes, next: Notes, x: ObservedWork)
    requires
        observed(t, next, x),
        next.observations.len() <= next.limits.observations.0,
    ensures
        next.distinct(),
        sound(next),
{
    reveal(journal::works_distinct);
    let p = journal::is_observed(x.view.work);
    table::lemma_index_where(t.observations, p);
    lemma_observed_places(t, next, x, x.view.work);
    lemma_sound_bounds(t);
    assert forall|j: int| 0 <= j < next.observations.len() implies (#[trigger] next.observations[j]
        == x || (j < t.observations.len() && next.observations[j] == t.observations[j]
        && t.observations[j].view.work != x.view.work)) by {
        if j < t.observations.len() && t.observations[j].view.work == x.view.work {
            lemma_observation_found(t, j);
        }
    }
    assert(next.distinct()) by {
        assert forall|i: int, j: int| 0 <= i < j < next.observations.len() implies (
        #[trigger] next.observations[i]).view.work != (#[trigger] next.observations[j]).view.work by {
            if t.observed_at(x.view.work) >= t.observations.len() && j == t.observations.len() {
                assert(!p(t.observations[i]));
            }
        }
    }
    assert forall|i: int| 0 <= i < next.operations.len() implies next.entry_check()(
        #[trigger] next.operations[i],
    ) is None by {
        lemma_observed_entry(t, next, x, i);
    }
    assert forall|i: int| 0 <= i < next.observations.len() implies next.stands()(
        #[trigger] next.observations[i],
    ) is None by {
        let o = next.observations[i];
        if o != x {
            lemma_sound_observation(t, i);
        }
        lemma_observed_stands(t, next, x, o);
    }
    assert forall|i: int| 0 <= i < next.manifests.len() implies next.manifest_problem(
        #[trigger] next.manifests[i],
    ) is None by {
        lemma_observed_kept(t, next, x, i);
    }
    assert forall|i: int| 0 <= i < next.references.len() implies next.reference_check()(
        #[trigger] next.references[i],
    ) is None by {
        reveal(Notes::reference_fault);
        let e = t.references[i];
        lemma_sound_reference(t, i);
        lemma_observed_places(t, next, x, e.work);
        table::lemma_index_where(t.manifests, journal::is_manifest(e.work));
        lemma_observed_kept(t, next, x, t.manifest_at(e.work));
    }
    assert forall|i: int| 0 <= i < next.scopes.len() implies next.scope_stands()(
        #[trigger] next.scopes[i],
    ) is None by {
        let s = t.scopes[i];
        lemma_sound_scope(t, i);
        lemma_observed_scope(t, next, x, i);
        let c = t.coverage_at(s.scope);
        if c < t.coverage.len() {
            lemma_observed_coverage(t, next, x, t.coverage[c]);
        }
    }
    assert forall|i: int| 0 <= i < next.members.len() implies next.member_stands()(
        #[trigger] next.members[i],
    ) is None by {
        lemma_sound_member(t, i);
        lemma_observed_member(t, next, x, i);
    }
    assert(next.adopted());
    lemma_all_stand(next);
}

/// The manifest that a success shows fits it.
proof fn lemma_shown_fits(t: Notes, o: ObservedWork, k: Manifest)
    requires
        t.view_problem(o) is None,
        o.view.manifest is Some,
        k.agrees(&o.view.manifest->0),
    ensures
        observations::manifest_fits_view(k, o.view),
{
    reveal(Notes::view_problem);
    alike::lemma_manifests_alike(k, o.view.manifest->0);
}

/// Observing work keeps what passes the audit passing it.
pub proof fn law_observation_keeps_the_audit(t: Notes, incoming: ObservedWork, next: Notes)
    requires
        t.ordered(),
        t.distinct(),
        t.audit_fault() is None,
        t.observe_fault(incoming) is None,
        !t.seen_later(incoming),
        t.notes_view(incoming, next),
        match incoming.view.manifest {
            Some(m) => t.keeps(m, Notes { observations: t.observations, ..next }),
            None => next == (Notes { observations: next.observations, ..t }),
        },
    ensures
        next.distinct(),
        next.audit_fault() is None,
{
    reveal(journal::works_distinct);
    let mid = Notes { observations: t.observations, ..next };
    let at = t.observed_at(incoming.view.work);
    table::lemma_index_where(t.observations, journal::is_observed(incoming.view.work));
    let x = if at < t.observations.len() {
        next.observations[at]
    } else {
        next.observations.last()
    };
    lemma_sound(t);
    lemma_framed_by(t, t);
    lemma_seen_by(t, t);
    lemma_alike_by(t, t);
    alike::lemma_view_problem_alike(t, t, x, incoming);
    alike::lemma_views_alike(x.view, incoming.view);
    lemma_incoming_stands(t, incoming, x, mid);
    assert(t.bound is Some) by {
        reveal(Notes::view_problem);
    }
    if at < t.observations.len() && t.observations[at].view.state.terminal() {
        let old = t.observations[at].view;
        lemma_sound_observation(t, at);
        assert(old.valid() && incoming.view.valid()) by {
            reveal(Notes::view_problem);
        }
        WorkView::agrees_carries(&old, &incoming.view);
        wire::law_encoding_is_bijective(old, x.view);
    }
    assert(mid.observed_at(x.view.work) == at);
    assert(observed(mid, next, x));
    lemma_sound_bounds(mid);
    lemma_observed_sound(mid, next, x);
    lemma_sound(next);
}

/// The incoming observation stands once its manifest is kept.
proof fn lemma_incoming_stands(t: Notes, incoming: ObservedWork, x: ObservedWork, mid: Notes)
    requires
        t.ordered(),
        t.distinct(),
        sound(t),
        t.observe_fault(incoming) is None,
        !t.seen_later(incoming),
        x.agrees(&incoming),
        t.view_problem(x) is None,
        match incoming.view.manifest {
            Some(m) => t.keeps(m, mid),
            None => mid == t,
        },
    ensures
        mid.ordered(),
        mid.distinct(),
        sound(mid),
        mid.stands()(x) is None,
{
    reveal(journal::works_distinct);
    lemma_sound(t);
    alike::lemma_views_alike(x.view, incoming.view);
    assert(t.bound is Some) by {
        reveal(Notes::view_problem);
    }
    match incoming.view.manifest {
        Some(m) => {
            law_manifest_keeps_the_audit(t, m, mid);
            lemma_sound(mid);
            lemma_selected(t, m, mid);
            let shown = x.view.manifest->0;
            assert(m.work == incoming.view.work && shown.work == x.view.work) by {
                reveal(Notes::view_problem);
                alike::lemma_manifests_alike(shown, m);
            }
            let kept = mid.manifests[mid.manifest_at(m.work)];
            kept.agrees_reflexive();
            alike::lemma_manifests_chain(kept, kept, shown, m);
            if t.manifest_at(m.work) >= t.manifests.len() {
                let k = mid.manifests.last();
                alike::lemma_manifests_alike(k, m);
                lemma_framed_by(t, t);
                lemma_seen_by(t, t);
                alike::lemma_manifest_problem_alike(t, t, k, m);
                k.agrees_reflexive();
                alike::lemma_manifests_chain(k, k, shown, m);
                lemma_shown_fits(t, x, k);
                lemma_published_shown(t, mid, k, x);
            }
        },
        None => {},
    }
}

/// The second notes hold the answer to an intent that had none. Scopes may be known better, and how rows
/// relate was looked at.
pub open spec fn answering(t: Notes, next: Notes, at: int, receipt: OperationReceipt) -> bool {
    &&& t.ordered()
    &&& t.distinct()
    &&& sound(t)
    &&& 0 <= at < t.operations.len()
    &&& t.operations[at].receipt is None
    &&& storage::receipt_fault(t.operations[at].intent, t.bound->0.identity, receipt) is None
    &&& t.receipt_problem(t.operations[at].intent, receipt) is None
    &&& next == (Notes { scopes: next.scopes, ..t.answered(at, receipt) })
    &&& next.relations_fault() is None
}

proof fn lemma_answering_manifest(
    t: Notes,
    next: Notes,
    at: int,
    receipt: OperationReceipt,
    k: int,
)
    requires
        answering(t, next, at, receipt),
        0 <= k < t.manifests.len(),
    ensures
        next.manifest_problem(t.manifests[k]) is None,
{
    let m = t.manifests[k];
    lemma_sound_manifest(t, k);
    assert(next.manifest_check()(m) is None) by {
        reveal(Notes::relations_fault);
        table::lemma_first_fault_none(next.manifests, next.manifest_check());
        assert(next.manifests[k] == m);
    }
    let f = t.manifest_receipts(m);
    let g = next.manifest_receipts(m);
    table::lemma_first_fault_none(t.operations, f);
    table::lemma_first_fault_none(next.operations, g);
    assert(table::first_fault(t.operations, f) is None) by {
        reveal(Notes::manifest_problem);
    }
    assert forall|j: int| 0 <= j < next.operations.len() implies g(
        #[trigger] next.operations[j],
    ) is None by {
        if j != at {
            assert(f(t.operations[j]) is None);
        } else if known::about(next.operations[j], m.work) {
            reveal(Notes::receipt_problem);
            lemma_manifest_found(t, k);
        }
    }
    reveal(Notes::manifest_problem);
}

proof fn lemma_answering_stands(
    t: Notes,
    next: Notes,
    at: int,
    receipt: OperationReceipt,
    k: int,
)
    requires
        answering(t, next, at, receipt),
        0 <= k < t.observations.len(),
    ensures
        next.stands()(t.observations[k]) is None,
{
    let o = t.observations[k];
    let v = o.view;
    lemma_sound_observation(t, k);
    assert(next.view_check()(o) is None) by {
        reveal(Notes::relations_fault);
        table::lemma_first_fault_none(next.observations, next.view_check());
        assert(next.observations[k] == o);
    }
    let f = t.view_receipts(v);
    let g = next.view_receipts(v);
    table::lemma_first_fault_none(t.operations, f);
    table::lemma_first_fault_none(next.operations, g);
    assert(table::first_fault(t.operations, f) is None) by {
        reveal(Notes::view_problem);
    }
    assert forall|j: int| 0 <= j < next.operations.len() implies g(
        #[trigger] next.operations[j],
    ) is None by {
        if j != at {
            assert(f(t.operations[j]) is None);
        } else if known::about(next.operations[j], v.work) {
            reveal(Notes::receipt_problem);
            lemma_observation_found(t, k);
        }
    }
    if v.manifest is Some {
        let q = t.manifest_at(v.work);
        table::lemma_index_where(t.manifests, journal::is_manifest(v.work));
        lemma_answering_manifest(t, next, at, receipt, q);
        lemma_framed_by(next, next);
        lemma_seen_by(next, next);
        alike::lemma_manifest_problem_alike(next, next, t.manifests[q], v.manifest->0);
    }
    reveal(Notes::view_problem);
}

proof fn lemma_answering_member(
    t: Notes,
    next: Notes,
    at: int,
    receipt: OperationReceipt,
    k: int,
)
    requires
        answering(t, next, at, receipt),
        0 <= k < t.members.len(),
    ensures
        next.member_fault(t.members[k]) is None,
{
    let m = t.members[k];
    lemma_sound_member(t, k);
    let f = t.hint_check(m.work, m.terminal->0);
    let g = next.hint_check(m.work, m.terminal->0);
    table::lemma_first_fault_none(t.operations, f);
    table::lemma_first_fault_none(next.operations, g);
    if m.terminal is Some {
        assert forall|j: int| 0 <= j < next.operations.len() implies g(
            #[trigger] next.operations[j],
        ) is None by {
            if j != at {
                assert(f(t.operations[j]) is None);
            } else if known::about(next.operations[j], m.work) {
                reveal(Notes::receipt_problem);
                lemma_member_found(t, k);
            }
        }
    }
}

/// Answers about the same work fit together.
proof fn lemma_answering_pairs(
    t: Notes,
    next: Notes,
    at: int,
    receipt: OperationReceipt,
    j: int,
)
    requires
        answering(t, next, at, receipt),
        0 <= j < next.operations.len(),
        next.operations[j].receipt is Some,
        receipts::target_of(next.operations[j].intent) is Some,
    ensures
        table::first_fault(
            next.operations,
            next.pairs(next.operations[j].intent, next.operations[j].receipt->0),
        ) is None,
{
    reveal(Notes::receipt_problem);
    let e = next.operations[j];
    let intent = t.operations[at].intent;
    let f = t.pairs(e.intent, e.receipt->0);
    let g = next.pairs(e.intent, e.receipt->0);
    let h = t.pairs(intent, receipt);
    table::lemma_first_fault_none(t.operations, f);
    table::lemma_first_fault_none(t.operations, h);
    table::lemma_first_fault_none(next.operations, g);
    if j != at {
        lemma_sound_entry(t, j);
    }
    assert forall|l: int| 0 <= l < next.operations.len() implies g(
        #[trigger] next.operations[l],
    ) is None by {
        let x = next.operations[l];
        if observations::target_is(e.intent, receipts::target_of(x.intent)) && x.receipt is Some {
            if l != at {
                if j != at {
                    assert(f(t.operations[l]) is None);
                } else {
                    assert(h(t.operations[l]) is None);
                }
            } else if j != at {
                assert(h(t.operations[j]) is None);
                receipts::law_receipt_pairs_are_symmetric(
                    e.intent,
                    e.receipt->0,
                    intent,
                    receipt,
                );
            } else {
                alike::lemma_intent_reflexive(intent);
                receipt.agrees_reflexive();
            }
        }
    }
}

proof fn lemma_answering_entry(
    t: Notes,
    next: Notes,
    at: int,
    receipt: OperationReceipt,
    j: int,
)
    requires
        answering(t, next, at, receipt),
        0 <= j < next.operations.len(),
        next.operations[j].receipt is Some && next.operations[j].intent.mutation is Declare
            ==> next.scope_receipt_fault(
            next.operations[j].intent,
            next.operations[j].receipt->0,
        ) is None,
    ensures
        next.entry_check()(next.operations[j]) is None,
{
    let e = next.operations[j];
    if e.receipt is Some {
        let work = receipts::target_of(e.intent);
        if j != at {
            lemma_sound_entry(t, j);
        }
        if work is Some {
            lemma_answering_pairs(t, next, at, receipt, j);
            assert(next.work_check()(e) is None) by {
                reveal(Notes::relations_fault);
                table::lemma_first_fault_none(next.operations, next.work_check());
                assert(next.operations[j] == e);
            }
        }
        reveal(Notes::receipt_problem);
    }
}

proof fn lemma_answering_closes(
    t: Notes,
    next: Notes,
    at: int,
    receipt: OperationReceipt,
    scope: ScopeObservation,
    summary: ScopeSummary,
    j: int,
)
    requires
        answering(t, next, at, receipt),
        0 <= j < t.members.len(),
    ensures
        closes_as(t, next, scope, summary, t.members[j]),
{
    let m = t.members[j];
    if t.member_open(scope, summary, m) is None {
        lemma_answering_member(t, next, at, receipt, j);
        table::lemma_index_where(t.observations, journal::is_observed(m.work));
        lemma_answering_stands(t, next, at, receipt, t.observed_at(m.work));
    }
}

/// A closure stands where its scope is what it was.
proof fn lemma_answering_coverage(
    t: Notes,
    next: Notes,
    at: int,
    receipt: OperationReceipt,
    summary: ScopeSummary,
)
    requires
        answering(t, next, at, receipt),
        t.coverage_fault(summary) is None,
        next.scope_at(summary.scope) == t.scope_at(summary.scope),
        next.scope_at(summary.scope) < next.scopes.len(),
        next.scopes[t.scope_at(summary.scope)] == t.scopes[t.scope_at(summary.scope)],
        next.scope_fault(t.scopes[t.scope_at(summary.scope)]) is None,
    ensures
        next.coverage_fault(summary) is None,
{
    let scope = t.scopes[t.scope_at(summary.scope)];
    assert forall|i: int| 0 <= i < t.scope_members(summary.scope).len() implies closes_as(
        t,
        next,
        scope,
        summary,
        #[trigger] t.scope_members(summary.scope)[i],
    ) by {
        let j = lemma_scope_member(t, summary.scope, i);
        lemma_answering_closes(t, next, at, receipt, scope, summary, j);
    }
    lemma_closure_kept(t, next, summary);
}

/// The scope is in the second notes where it was, as it was.
pub open spec fn unchanged(t: Notes, next: Notes, scope: Number) -> bool {
    &&& next.scope_at(scope) == t.scope_at(scope)
    &&& next.scopes[t.scope_at(scope)] == t.scopes[t.scope_at(scope)]
}

proof fn lemma_answering_sound(t: Notes, next: Notes, at: int, receipt: OperationReceipt)
    requires
        answering(t, next, at, receipt),
        next.scopes.len() == t.scopes.len(),
        forall|k: int|
            0 <= k < t.scopes.len() ==> (#[trigger] next.scopes[k]).scope == t.scopes[k].scope
                && next.scopes[k].producer == t.scopes[k].producer,
        forall|k: int|
            0 <= k < t.scopes.len() ==> next.scope_fault(#[trigger] next.scopes[k]) is None,
        forall|j: int|
            0 <= j < next.operations.len() && (#[trigger] next.operations[j]).receipt is Some
                && next.operations[j].intent.mutation is Declare ==> next.scope_receipt_fault(
                next.operations[j].intent,
                next.operations[j].receipt->0,
            ) is None,
        forall|k: int|
            0 <= k < t.scopes.len() && t.coverage_at((#[trigger] t.scopes[k]).scope)
                < t.coverage.len() ==> unchanged(t, next, t.scopes[k].scope),
    ensures
        next.distinct(),
        sound(next),
        next.audit_fault() is None,
{
    reveal(journal::works_distinct);
    lemma_sound_bounds(t);
    assert forall|scope: Number| #[trigger] next.scope_at(scope) == t.scope_at(scope) by {
        let p = journal::is_scope(scope);
        table::lemma_index_alike(t.scopes, p, next.scopes);
    }
    assert forall|i: int| 0 <= i < next.operations.len() implies next.entry_check()(
        #[trigger] next.operations[i],
    ) is None by {
        lemma_answering_entry(t, next, at, receipt, i);
    }
    assert forall|i: int| 0 <= i < next.observations.len() implies next.stands()(
        #[trigger] next.observations[i],
    ) is None by {
        lemma_answering_stands(t, next, at, receipt, i);
    }
    assert forall|i: int| 0 <= i < next.manifests.len() implies next.manifest_problem(
        #[trigger] next.manifests[i],
    ) is None by {
        lemma_answering_manifest(t, next, at, receipt, i);
    }
    assert forall|i: int| 0 <= i < next.references.len() implies next.reference_check()(
        #[trigger] next.references[i],
    ) is None by {
        reveal(Notes::reference_fault);
        let e = t.references[i];
        lemma_sound_reference(t, i);
        table::lemma_index_where(t.manifests, journal::is_manifest(e.work));
        lemma_answering_manifest(t, next, at, receipt, t.manifest_at(e.work));
    }
    assert forall|i: int| 0 <= i < next.scopes.len() implies next.scope_stands()(
        #[trigger] next.scopes[i],
    ) is None by {
        let s = t.scopes[i];
        lemma_sound_scope(t, i);
        assert(next.scope_fault(next.scopes[i]) is None);
        let c = t.coverage_at(s.scope);
        if c < t.coverage.len() {
            assert(unchanged(t, next, s.scope));
            lemma_scope_found(t, i);
            table::lemma_index_where(t.coverage, journal::is_coverage(s.scope));
            lemma_answering_coverage(t, next, at, receipt, t.coverage[c]);
        }
    }
    assert forall|i: int| 0 <= i < next.members.len() implies next.member_stands()(
        #[trigger] next.members[i],
    ) is None by {
        lemma_sound_member(t, i);
        lemma_answering_member(t, next, at, receipt, i);
        let p = journal::is_scope(t.members[i].work.scope);
        table::lemma_index_where(t.scopes, p);
        assert(next.scope_at(t.members[i].work.scope) == t.scope_at(t.members[i].work.scope));
        assert(next.scopes[t.scope_at(t.members[i].work.scope)].producer
            == t.scopes[t.scope_at(t.members[i].work.scope)].producer);
    }
    assert(next.adopted()) by {
        assert forall|i: int| 0 <= i < next.members.len() implies next.scope_at(
            (#[trigger] next.members[i]).work.scope,
        ) < next.scopes.len() by {
            assert(t.scope_at(t.members[i].work.scope) < t.scopes.len());
        }
        assert forall|i: int| 0 <= i < next.coverage.len() implies next.scope_at(
            (#[trigger] next.coverage[i]).scope,
        ) < next.scopes.len() by {
            assert(t.scope_at(t.coverage[i].scope) < t.scopes.len());
        }
    }
    lemma_all_stand(next);
}

/// Declarations in a scope are applied alike.
proof fn lemma_same_declarations(
    a: Notes,
    b: Notes,
    s: Seq<OperationEntry>,
    u: Seq<OperationEntry>,
    scope: ScopeObservation,
)
    requires
        s.len() == u.len(),
        forall|i: int|
            0 <= i < s.len() ==> known::declares(#[trigger] s[i], scope.scope) == known::declares(
                u[i],
                scope.scope,
            ) && (known::declares(s[i], scope.scope) ==> s[i].receipt == u[i].receipt),
    ensures
        a.with_declarations(s, scope) == b.with_declarations(u, scope),
    decreases s.len(),
{
    if s.len() > 0 {
        assert forall|i: int| 0 <= i < s.len() - 1 implies known::declares(
            #[trigger] s.drop_last()[i],
            scope.scope,
        ) == known::declares(u.drop_last()[i], scope.scope) && (known::declares(
            s.drop_last()[i],
            scope.scope,
        ) ==> s.drop_last()[i].receipt == u.drop_last()[i].receipt) by {
            assert(s.drop_last()[i] == s[i]);
        }
        lemma_same_declarations(a, b, s.drop_last(), u.drop_last(), scope);
        assert(known::declares(s[s.len() - 1], scope.scope) == known::declares(
            u[s.len() - 1],
            scope.scope,
        ));
    }
}

/// What is known of a scope does not change with an answer that declares nothing in it.
proof fn lemma_unrelated_refresh(
    t: Notes,
    next: Notes,
    at: int,
    receipt: OperationReceipt,
    scope: ScopeObservation,
)
    requires
        0 <= at < t.operations.len(),
        t.operations[at].receipt is None,
        next == (Notes { scopes: next.scopes, ..t.answered(at, receipt) }),
        !(t.operations[at].intent.mutation matches Mutation::Declare { scope: n, .. } && n
            == scope.scope),
    ensures
        next.refreshed(scope) == t.refreshed(scope),
{
    reveal(Notes::refreshed);
    assert forall|i: int| 0 <= i < t.operations.len() implies known::declares(
        #[trigger] t.operations[i],
        scope.scope,
    ) == known::declares(next.operations[i], scope.scope) && (known::declares(
        t.operations[i],
        scope.scope,
    ) ==> t.operations[i].receipt == next.operations[i].receipt) by {}
    lemma_same_declarations(t, next, t.operations, next.operations, scope);
    let applied = t.with_declarations(t.operations, scope)->Ok_0;
    let complete = applied.seal is Some && t.scope_members(scope.scope).len()
        == applied.declared.0;
    let known = ScopeObservation { membership_verified: complete, ..applied };
    if t.with_declarations(t.operations, scope) is Ok {
        lemma_applied_scope(t, t.operations, scope);
        let f = t.declared_check(known);
        let g = next.declared_check(known);
        assert forall|j: int| 0 <= j < t.operations.len() implies f(#[trigger] t.operations[j])
            == g(next.operations[j]) by {
            if j != at && known::declares(t.operations[j], known.scope) {
                let intent = t.operations[j].intent;
                lemma_same_membership(t, next, known, intent);
            }
        }
        alike::lemma_faults_alike(t.operations, f, next.operations, g);
        let f = t.observed_check(known);
        let g = next.observed_check(known);
        assert forall|j: int| 0 <= j < t.observations.len() implies f(#[trigger] t.observations[j])
            == g(next.observations[j]) by {}
        alike::lemma_faults_alike(t.observations, f, next.observations, g);
        let f = t.published_check(known);
        let g = next.published_check(known);
        assert forall|j: int| 0 <= j < t.manifests.len() implies f(#[trigger] t.manifests[j]) == g(
            next.manifests[j],
        ) by {}
        alike::lemma_faults_alike(t.manifests, f, next.manifests, g);
    }
}

/// Whether a declaration is part of a membership depends on the members alone.
proof fn lemma_same_membership(a: Notes, b: Notes, scope: ScopeObservation, intent: Intent)
    requires
        a.members == b.members,
    ensures
        a.declaration_fault(scope, intent) == b.declaration_fault(scope, intent),
{
    match intent.mutation {
        Mutation::Declare { entity_ids, .. } => {
            alike::lemma_faults_alike(
                entity_ids@,
                a.entity_check(scope),
                entity_ids@,
                b.entity_check(scope),
            );
        },
        _ => {},
    }
}

/// Declarations leave a scope in its place.
proof fn lemma_applied_scope(t: Notes, entries: Seq<OperationEntry>, scope: ScopeObservation)
    ensures
        t.with_declarations(entries, scope) matches Ok(s) ==> s.scope == scope.scope && s.producer
            == scope.producer && s.parent == scope.parent && s.declared.0 >= scope.declared.0 && (
        scope.seal is Some ==> s == scope),
    decreases entries.len(),
{
    if entries.len() > 0 {
        lemma_applied_scope(t, entries.drop_last(), scope);
    }
}

proof fn lemma_answered_fences(
    t: Notes,
    next: Notes,
    at: int,
    receipt: OperationReceipt,
    scope: Number,
    allowed: spec_fn(Number) -> bool,
)
    requires
        0 <= at < t.operations.len(),
        next == t.answered(at, receipt),
        t.operations[at].receipt is None,
        !(t.operations[at].intent.mutation is ScopeCancel),
    ensures
        next.fences_fault(scope, allowed) == t.fences_fault(scope, allowed),
{
    let f = t.fence_check(scope, allowed);
    let g = next.fence_check(scope, allowed);
    assert forall|j: int| 0 <= j < t.operations.len() implies f(#[trigger] t.operations[j]) == g(
        next.operations[j],
    ) by {
        let e = t.operations[j];
        if j != at && e.receipt is Some {
            match e.receipt->0.body {
                Outcome::ScopeCancelled { scope: ancestor, .. } => {
                    alike::lemma_descent_alike(t, next, scope, ancestor);
                },
                _ => {},
            }
        }
    }
    alike::lemma_faults_alike(t.operations, f, next.operations, g);
}

/// An answer about work leaves rows fitting together.
proof fn lemma_answered_relations(t: Notes, next: Notes, at: int, receipt: OperationReceipt)
    requires
        t.ordered(),
        sound(t),
        0 <= at < t.operations.len(),
        t.operations[at].receipt is None,
        t.receipt_problem(t.operations[at].intent, receipt) is None,
        receipts::target_of(t.operations[at].intent) is Some,
        next == t.answered(at, receipt),
    ensures
        next.relations_fault() is None,
{
    reveal(Notes::relations_fault);
    table::lemma_first_fault_none(next.scopes, next.place_check());
    assert forall|k: int| 0 <= k < next.scopes.len() implies next.place_check()(
        #[trigger] next.scopes[k],
    ) is None by {
        lemma_answered_place(t, next, at, receipt, k);
    }
    table::lemma_first_fault_none(next.observations, next.view_check());
    assert forall|k: int| 0 <= k < next.observations.len() implies next.view_check()(
        #[trigger] next.observations[k],
    ) is None by {
        let v = t.observations[k].view;
        lemma_sound_observation(t, k);
        assert(t.scope_view_fault(v) is None) by {
            reveal(Notes::view_problem);
        }
        lemma_answered_fences(t, next, at, receipt, v.work.scope, Notes::view_before(v));
    }
    table::lemma_first_fault_none(next.manifests, next.manifest_check());
    assert forall|k: int| 0 <= k < next.manifests.len() implies next.manifest_check()(
        #[trigger] next.manifests[k],
    ) is None by {
        let m = t.manifests[k];
        lemma_sound_manifest(t, k);
        assert(t.scope_manifest_fault(m) is None) by {
            reveal(Notes::manifest_problem);
        }
        lemma_answered_fences(t, next, at, receipt, m.work.scope, Notes::manifest_before(m));
    }
    table::lemma_first_fault_none(next.operations, next.work_check());
    assert forall|k: int| 0 <= k < next.operations.len() implies next.work_check()(
        #[trigger] next.operations[k],
    ) is None by {
        let e = next.operations[k];
        let work = receipts::target_of(e.intent);
        if work is Some && e.receipt is Some {
            if k != at {
                lemma_sound_entry(t, k);
            }
            assert(t.work_receipt_fault(work->0, e.receipt->0) is None) by {
                reveal(Notes::receipt_problem);
            }
            match receipts::change_time(e.receipt->0.body) {
                Some(time) => lemma_answered_fences(
                    t,
                    next,
                    at,
                    receipt,
                    (work->0).scope,
                    Notes::change_before(time),
                ),
                None => {},
            }
        }
    }
}

proof fn lemma_answered_place(t: Notes, next: Notes, at: int, receipt: OperationReceipt, k: int)
    requires
        t.ordered(),
        sound(t),
        0 <= at < t.operations.len(),
        t.operations[at].receipt is None,
        t.receipt_problem(t.operations[at].intent, receipt) is None,
        next == t.answered(at, receipt),
        0 <= k < t.scopes.len(),
    ensures
        next.place_fault(t.scopes[k]) is None,
{
    let s = t.scopes[k];
    lemma_sound_scope(t, k);
    if s.parent is Some {
        let work = s.parent->0;
        let f = t.child_check(s, work);
        let g = next.child_check(s, work);
        table::lemma_first_fault_none(t.operations, f);
        table::lemma_first_fault_none(next.operations, g);
        assert forall|j: int| 0 <= j < next.operations.len() implies g(
            #[trigger] next.operations[j],
        ) is None by {
            if j != at {
                assert(f(t.operations[j]) is None);
            } else if known::about(next.operations[j], work) && receipt.body is Admitted {
                reveal(Notes::receipt_problem);
                let p = known::has_parent(work);
                table::lemma_index_where(t.scopes, p);
                let other = t.child_at(work);
                assert(p(s));
                if other >= t.scopes.len() {
                    assert(!p(t.scopes[k]));
                }
                lemma_scope_found(t, k);
                lemma_scope_found(t, other);
            }
        }
    }
}

/// A scope holds what a declaration's answer says.
pub open spec fn absorbed(s: ScopeObservation, receipt: OperationReceipt) -> bool {
    receipt.body matches Outcome::Declared { scope, producer, declared, seal, .. } && s.scope == scope
        && s.producer == producer && declared.0 <= s.declared.0 && (seal is Some ==> s.seal == seal
        && s.declared == declared)
}

/// What was applied is held.
proof fn lemma_all_absorbed(t: Notes, entries: Seq<OperationEntry>, scope: ScopeObservation, j: int)
    requires
        t.with_declarations(entries, scope) is Ok,
        0 <= j < entries.len(),
        known::declares(entries[j], scope.scope),
    ensures
        absorbed(t.with_declarations(entries, scope)->Ok_0, entries[j].receipt->0),
    decreases entries.len(),
{
    lemma_applied_scope(t, entries.drop_last(), scope);
    if j < entries.len() - 1 {
        assert(entries.drop_last()[j] == entries[j]);
        lemma_all_absorbed(t, entries.drop_last(), scope, j);
    }
}

/// What is held changes nothing when it is applied again.
proof fn lemma_reapplied(t: Notes, entries: Seq<OperationEntry>, s: ScopeObservation)
    requires
        forall|j: int|
            0 <= j < entries.len() && known::declares(#[trigger] entries[j], s.scope) ==> absorbed(
                s,
                entries[j].receipt->0,
            ),
    ensures
        t.with_declarations(entries, s) == Ok::<ScopeObservation, Fault>(s),
    decreases entries.len(),
{
    if entries.len() > 0 {
        assert forall|j: int|
            0 <= j < entries.len() - 1 && known::declares(
                #[trigger] entries.drop_last()[j],
                s.scope,
            ) implies absorbed(s, entries.drop_last()[j].receipt->0) by {
            assert(entries.drop_last()[j] == entries[j]);
        }
        lemma_reapplied(t, entries.drop_last(), s);
        if known::declares(entries[entries.len() - 1], s.scope) {
            assert(absorbed(s, entries[entries.len() - 1].receipt->0));
        }
    }
}

/// A scope that was refreshed is what the evidence gives.
proof fn lemma_refresh_settles(t: Notes, scope: ScopeObservation)
    requires
        t.refreshed(scope) is Ok,
    ensures
        t.refreshed(t.refreshed(scope)->Ok_0) == t.refreshed(scope),
        t.refreshed(scope)->Ok_0.scope == scope.scope,
        t.refreshed(scope)->Ok_0.producer == scope.producer,
        t.refreshed(scope)->Ok_0.parent == scope.parent,
        t.membership_fault(t.refreshed(scope)->Ok_0) is None,
        forall|j: int|
            0 <= j < t.operations.len() && known::declares(#[trigger] t.operations[j], scope.scope)
                ==> absorbed(t.refreshed(scope)->Ok_0, t.operations[j].receipt->0),
{
    reveal(Notes::refreshed);
    let s = t.with_declarations(t.operations, scope)->Ok_0;
    let r = t.refreshed(scope)->Ok_0;
    lemma_applied_scope(t, t.operations, scope);
    assert forall|j: int|
        0 <= j < t.operations.len() && known::declares(#[trigger] t.operations[j], scope.scope)
            implies absorbed(r, t.operations[j].receipt->0) by {
        lemma_all_absorbed(t, t.operations, scope, j);
    }
    lemma_reapplied(t, t.operations, r);
    let rows = t.scope_members(scope.scope);
    let f = Notes::producer_check(s);
    let g = Notes::producer_check(r);
    assert forall|j: int| 0 <= j < rows.len() implies f(#[trigger] rows[j]) == g(rows[j]) by {}
    alike::lemma_faults_alike(rows, f, rows, g);
    assert(t.seal_fault(s) == t.seal_fault(r));
}

/// What is known of a scope does not depend on other scopes.
proof fn lemma_same_refresh(a: Notes, b: Notes, scope: ScopeObservation)
    requires
        b == (Notes { scopes: b.scopes, ..a }),
    ensures
        b.refreshed(scope) == a.refreshed(scope),
        forall|s: ScopeObservation| #[trigger] b.membership_fault(s) == a.membership_fault(s),
{
    reveal(Notes::refreshed);
    assert forall|i: int| 0 <= i < a.operations.len() implies known::declares(
        #[trigger] a.operations[i],
        scope.scope,
    ) == known::declares(b.operations[i], scope.scope) by {}
    lemma_same_declarations(a, b, a.operations, b.operations, scope);
    assert forall|s: ScopeObservation| #[trigger]
        b.membership_fault(s) == a.membership_fault(s) by {
        let f = a.declared_check(s);
        let g = b.declared_check(s);
        assert forall|j: int| 0 <= j < a.operations.len() implies f(#[trigger] a.operations[j])
            == g(b.operations[j]) by {
            lemma_same_membership(a, b, s, a.operations[j].intent);
        }
        alike::lemma_faults_alike(a.operations, f, b.operations, g);
        let f = a.observed_check(s);
        let g = b.observed_check(s);
        assert forall|j: int| 0 <= j < a.observations.len() implies f(#[trigger] a.observations[j])
            == g(b.observations[j]) by {}
        alike::lemma_faults_alike(a.observations, f, b.observations, g);
        let f = a.published_check(s);
        let g = b.published_check(s);
        assert forall|j: int| 0 <= j < a.manifests.len() implies f(#[trigger] a.manifests[j]) == g(
            b.manifests[j],
        ) by {}
        alike::lemma_faults_alike(a.manifests, f, b.manifests, g);
    }
}

/// An answer that declares nothing leaves every scope what it was.
proof fn lemma_answered_elsewhere(t: Notes, next: Notes, at: int, receipt: OperationReceipt)
    requires
        answering(t, next, at, receipt),
        next == t.answered(at, receipt),
        !(t.operations[at].intent.mutation matches Mutation::Declare { scope, .. } && t.scope_at(
            scope,
        ) < t.scopes.len()),
    ensures
        next.distinct(),
        next.audit_fault() is None,
{
    reveal(journal::works_distinct);
    assert forall|k: int| 0 <= k < t.scopes.len() implies next.scope_fault(
        #[trigger] next.scopes[k],
    ) is None by {
        let s = t.scopes[k];
        lemma_sound_scope(t, k);
        lemma_scope_found(t, k);
        lemma_unrelated_refresh(t, next, at, receipt, s);
        assert(next.place_check()(s) is None) by {
            reveal(Notes::relations_fault);
            table::lemma_first_fault_none(next.scopes, next.place_check());
            assert(next.scopes[k] == s);
        }
    }
    assert forall|j: int|
        0 <= j < next.operations.len() && (#[trigger] next.operations[j]).receipt is Some
            && next.operations[j].intent.mutation is Declare implies next.scope_receipt_fault(
        next.operations[j].intent,
        next.operations[j].receipt->0,
    ) is None by {
        if j != at {
            lemma_kept_declaration(t, next, j);
        }
    }
    lemma_answering_sound(t, next, at, receipt);
}

/// The answer of a declaration in a scope that is what it was stands.
proof fn lemma_kept_declaration(t: Notes, next: Notes, j: int)
    requires
        sound(t),
        0 <= j < t.operations.len(),
        t.operations[j].receipt is Some,
        t.operations[j].intent.mutation is Declare,
        next.members == t.members,
        next.scopes.len() == t.scopes.len(),
        next.scope_at(t.operations[j].intent.mutation->Declare_scope) == t.scope_at(
            t.operations[j].intent.mutation->Declare_scope,
        ),
        t.scope_at(t.operations[j].intent.mutation->Declare_scope) < t.scopes.len() ==> unchanged(
            t,
            next,
            t.operations[j].intent.mutation->Declare_scope,
        ),
    ensures
        next.scope_receipt_fault(t.operations[j].intent, t.operations[j].receipt->0) is None,
{
    let e = t.operations[j];
    lemma_sound_entry(t, j);
    reveal(Notes::receipt_problem);
    let at = t.scope_at(e.intent.mutation->Declare_scope);
    if at < t.scopes.len() {
        match known::declaration_applied(t.scopes[at], e.receipt->0) {
            Ok(observed) => lemma_same_membership(t, next, observed, e.intent),
            Err(_) => {},
        }
    }
}

/// A scope that is closed is what all its declarations give already.
proof fn lemma_closed_scope_stays(
    t: Notes,
    u: Notes,
    at: int,
    receipt: OperationReceipt,
    k: int,
)
    requires
        sound(t),
        u == t.answered(at, receipt),
        0 <= k < t.scopes.len(),
        t.coverage_at(t.scopes[k].scope) < t.coverage.len(),
        t.scope_at(t.scopes[k].scope) == k,
        u.refreshed(t.scopes[k]) is Ok,
    ensures
        u.refreshed(t.scopes[k])->Ok_0 == t.scopes[k],
{
    let s = t.scopes[k];
    lemma_sound_scope(t, k);
    let c = t.coverage_at(s.scope);
    table::lemma_index_where(t.coverage, journal::is_coverage(s.scope));
    assert(s.membership_verified && s.seal is Some) by {
        reveal(Notes::coverage_fault);
        assert(t.coverage_fault(t.coverage[c]) is None);
    }
    reveal(Notes::refreshed);
    lemma_applied_scope(t, t.operations, s);
    lemma_applied_scope(u, u.operations, s);
}

/// An answer of a declaration completes what is known of its scope.
proof fn lemma_answered_declaration(
    t: Notes,
    next: Notes,
    at: int,
    receipt: OperationReceipt,
    k: int,
)
    requires
        answering(t, next, at, receipt),
        t.operations[at].intent.mutation is Declare,
        t.scope_at(t.operations[at].intent.mutation->Declare_scope) == k,
        0 <= k < t.scopes.len(),
        t.scopes[k].scope == t.operations[at].intent.mutation->Declare_scope,
        t.answered(at, receipt).refreshed(t.scopes[k]) is Ok,
        next.scopes == t.scopes.update(
            k,
            t.answered(at, receipt).refreshed(t.scopes[k])->Ok_0,
        ),
    ensures
        next.distinct(),
        next.audit_fault() is None,
{
    reveal(journal::works_distinct);
    let u = t.answered(at, receipt);
    let n = t.scopes[k].scope;
    let r = u.refreshed(t.scopes[k])->Ok_0;
    lemma_refresh_settles(u, t.scopes[k]);
    lemma_same_refresh(u, next, r);
    assert forall|scope: Number| #[trigger] next.scope_at(scope) == t.scope_at(scope) by {
        let p = journal::is_scope(scope);
        table::lemma_index_alike(t.scopes, p, next.scopes);
    }
    assert forall|i: int| 0 <= i < t.scopes.len() implies next.scope_fault(
        #[trigger] next.scopes[i],
    ) is None by {
        let s = next.scopes[i];
        assert(next.place_check()(s) is None) by {
            reveal(Notes::relations_fault);
            table::lemma_first_fault_none(next.scopes, next.place_check());
            assert(next.scopes[i] == s);
        }
        if i != k {
            lemma_sound_scope(t, i);
            lemma_scope_found(t, i);
            lemma_unrelated_refresh(t, next, at, receipt, s);
        }
    }
    assert forall|j: int|
        0 <= j < next.operations.len() && (#[trigger] next.operations[j]).receipt is Some
            && next.operations[j].intent.mutation is Declare implies next.scope_receipt_fault(
        next.operations[j].intent,
        next.operations[j].receipt->0,
    ) is None by {
        let e = next.operations[j];
        let scope = e.intent.mutation->Declare_scope;
        if scope == n {
            assert(known::declares(u.operations[j], n));
            assert(absorbed(r, e.receipt->0));
            let f = next.declared_check(r);
            table::lemma_first_fault_none(next.operations, f);
            assert(next.membership_fault(r) is None);
            assert(f(next.operations[j]) is None);
        } else {
            table::lemma_index_where(t.scopes, journal::is_scope(scope));
            assert(next.scope_at(scope) == t.scope_at(scope));
            lemma_kept_declaration(t, next, j);
        }
    }
    assert forall|i: int|
        0 <= i < t.scopes.len() && t.coverage_at((#[trigger] t.scopes[i]).scope)
            < t.coverage.len() implies unchanged(t, next, t.scopes[i].scope) by {
        lemma_scope_found(t, i);
        if i == k {
            lemma_closed_scope_stays(t, u, at, receipt, k);
        }
    }
    lemma_answering_sound(t, next, at, receipt);
}

/// Recording a receipt keeps what passes the audit passing it.
pub proof fn law_receipt_keeps_the_audit(t: Notes, receipt: OperationReceipt, next: Notes)
    requires
        t.ordered(),
        t.distinct(),
        t.audit_fault() is None,
        t.receipt_recorded(receipt) == Ok::<Notes, Fault>(next),
    ensures
        next.distinct(),
        next.audit_fault() is None,
{
    reveal(journal::works_distinct);
    let at = t.operation_at(receipt.operation.0@);
    table::lemma_index_where(t.operations, journal::is_intent(receipt.operation.0@));
    let intent = t.operations[at].intent;
    if t.operations[at].receipt is None {
        let u = t.answered(at, receipt);
        lemma_sound(t);
        reveal(Notes::receipt_committed);
        match intent.mutation {
            Mutation::Declare { scope, .. } => {
                let k = u.scope_at(scope);
                table::lemma_index_where(t.scopes, journal::is_scope(scope));
                if k < t.scopes.len() {
                    lemma_refresh_settles(u, t.scopes[k]);
                    assert(next == (Notes { scopes: next.scopes, ..u }));
                    lemma_answered_declaration(t, next, at, receipt, k);
                } else {
                    lemma_answered_elsewhere(t, next, at, receipt);
                }
            },
            Mutation::ScopeCancel { .. } => {
                lemma_answered_elsewhere(t, next, at, receipt);
            },
            _ => {
                lemma_answered_relations(t, next, at, receipt);
                lemma_answered_elsewhere(t, next, at, receipt);
            },
        }
    }
}

/// Rows that differ only where the predicate does not hold give the same.
proof fn lemma_same_rows<T>(s: Seq<T>, u: Seq<T>, p: spec_fn(T) -> bool)
    requires
        s.len() == u.len(),
        forall|i: int|
            0 <= i < s.len() ==> p(#[trigger] s[i]) == p(u[i]) && (p(s[i]) ==> s[i] == u[i]),
    ensures
        table::rows_where(s, p) == table::rows_where(u, p),
    decreases s.len(),
{
    if s.len() > 0 {
        assert forall|i: int| 0 <= i < s.len() - 1 implies p(#[trigger] s.drop_last()[i]) == p(
            u.drop_last()[i],
        ) && (p(s.drop_last()[i]) ==> s.drop_last()[i] == u.drop_last()[i]) by {
            assert(s.drop_last()[i] == s[i]);
        }
        lemma_same_rows(s.drop_last(), u.drop_last(), p);
        assert(p(s[s.len() - 1]) == p(u[s.len() - 1]));
    }
}

/// The members are of the same work, one by one.
pub open spec fn same_works(s: Seq<ScopeMember>, u: Seq<ScopeMember>) -> bool {
    s.len() == u.len() && forall|i: int| 0 <= i < s.len() ==> (#[trigger] s[i]).work == u[i].work
}

/// Members of the same work give members of the same work.
proof fn lemma_same_works(s: Seq<ScopeMember>, u: Seq<ScopeMember>, n: Number)
    requires
        same_works(s, u),
    ensures
        same_works(
            table::rows_where(s, known::member_of_scope(n)),
            table::rows_where(u, known::member_of_scope(n)),
        ),
    decreases s.len(),
{
    if s.len() > 0 {
        assert forall|i: int| 0 <= i < s.len() - 1 implies (#[trigger] s.drop_last()[i]).work
            == u.drop_last()[i].work by {
            assert(s.drop_last()[i] == s[i]);
        }
        lemma_same_works(s.drop_last(), u.drop_last(), n);
        assert(s[s.len() - 1].work == u[s.len() - 1].work);
    }
}

/// A row more is one more where the predicate holds, and none otherwise.
proof fn lemma_inserted_rows<T>(s: Seq<T>, at: int, x: T, p: spec_fn(T) -> bool)
    requires
        0 <= at <= s.len(),
    ensures
        !p(x) ==> table::rows_where(s.insert(at, x), p) == table::rows_where(s, p),
        p(x) ==> table::rows_where(s.insert(at, x), p).len() == table::rows_where(s, p).len() + 1,
    decreases s.len(),
{
    if at == s.len() {
        assert(s.insert(at, x) =~= s.push(x));
        table::lemma_rows_where_push(s, p, x);
    } else {
        let front = s.drop_last();
        lemma_inserted_rows(front, at, x, p);
        assert(s.insert(at, x) =~= front.insert(at, x).push(s.last()));
        assert(s =~= front.push(s.last()));
        table::lemma_rows_where_push(front.insert(at, x), p, s.last());
        table::lemma_rows_where_push(front, p, s.last());
    }
}

/// The members of one scope became more or are the same, and those of others are what they were.
#[verifier::opaque]
pub open spec fn grown(s: Seq<ScopeMember>, u: Seq<ScopeMember>, n: Number) -> bool {
    &&& forall|m: Number|
        m != n ==> #[trigger] table::rows_where(u, known::member_of_scope(m)) == table::rows_where(
            s,
            known::member_of_scope(m),
        )
    &&& table::rows_where(s, known::member_of_scope(n)).len() <= table::rows_where(
        u,
        known::member_of_scope(n),
    ).len()
    &&& table::rows_where(s, known::member_of_scope(n)).len() == table::rows_where(
        u,
        known::member_of_scope(n),
    ).len() ==> same_works(
        table::rows_where(s, known::member_of_scope(n)),
        table::rows_where(u, known::member_of_scope(n)),
    )
}

proof fn lemma_grown_by_update(s: Seq<ScopeMember>, u: Seq<ScopeMember>, at: int, kept: ScopeMember)
    requires
        0 <= at < s.len(),
        u == s.update(at, kept),
        kept.work == s[at].work,
    ensures
        grown(s, u, kept.work.scope),
{
    reveal(grown);
    let n = kept.work.scope;
    assert forall|m: Number| m != n implies #[trigger] table::rows_where(
        u,
        known::member_of_scope(m),
    ) == table::rows_where(s, known::member_of_scope(m)) by {
        lemma_same_rows(s, u, known::member_of_scope(m));
    }
    lemma_same_works(s, u, n);
}

proof fn lemma_grown_by_insert(s: Seq<ScopeMember>, u: Seq<ScopeMember>, at: int, v: ScopeMember)
    requires
        0 <= at <= s.len(),
        u == s.insert(at, v),
    ensures
        grown(s, u, v.work.scope),
{
    reveal(grown);
    let n = v.work.scope;
    assert forall|m: Number| m != n implies #[trigger] table::rows_where(
        u,
        known::member_of_scope(m),
    ) == table::rows_where(s, known::member_of_scope(m)) by {
        lemma_inserted_rows(s, at, v, known::member_of_scope(m));
    }
    lemma_inserted_rows(s, at, v, known::member_of_scope(n));
}

proof fn lemma_grown_chain(
    s: Seq<ScopeMember>,
    u: Seq<ScopeMember>,
    w: Seq<ScopeMember>,
    n: Number,
)
    requires
        grown(s, u, n),
        grown(u, w, n),
    ensures
        grown(s, w, n),
{
    reveal(grown);
    assert forall|m: Number| m != n implies #[trigger] table::rows_where(
        w,
        known::member_of_scope(m),
    ) == table::rows_where(s, known::member_of_scope(m)) by {
        assert(table::rows_where(u, known::member_of_scope(m)) == table::rows_where(
            s,
            known::member_of_scope(m),
        ));
    }
    let a = table::rows_where(s, known::member_of_scope(n));
    let b = table::rows_where(u, known::member_of_scope(n));
    let c = table::rows_where(w, known::member_of_scope(n));
    if a.len() == c.len() {
        assert forall|i: int| 0 <= i < a.len() implies (#[trigger] a[i]).work == c[i].work by {
            assert(a[i].work == b[i].work);
            assert(b[i].work == c[i].work);
        }
    }
}

/// Whether a reported end contradicts what is known of work does not depend on members or scopes.
proof fn lemma_same_member_fault(a: Notes, b: Notes, m: ScopeMember)
    requires
        b == (Notes { members: b.members, scopes: b.scopes, ..a }),
    ensures
        b.member_fault(m) == a.member_fault(m),
{
    let f = a.hint_check(m.work, m.terminal->0);
    let g = b.hint_check(m.work, m.terminal->0);
    assert forall|j: int| 0 <= j < a.operations.len() implies f(#[trigger] a.operations[j]) == g(
        b.operations[j],
    ) by {}
    alike::lemma_faults_alike(a.operations, f, b.operations, g);
}

/// A member of the page's scope has its producer, and nothing objects to its reported end.
pub open spec fn fitting(t: Notes, p: PageFacts, m: ScopeMember) -> bool {
    t.member_fault(m) is None && (m.work.scope == p.scope ==> m.work.producer == p.producer)
}

/// What a page adds to the members.
proof fn lemma_page_saved(t: Notes, p: PageFacts, n: int)
    requires
        t.members.len() <= t.limits.observations.0,
        forall|i: int| 0 <= i < t.members.len() ==> fitting(t, p, #[trigger] t.members[i]),
        t.page_saved(p, n) is Ok,
    ensures
        t.page_saved(p, n)->Ok_0 == (Notes { members: t.page_saved(p, n)->Ok_0.members, ..t }),
        grown(t.members, t.page_saved(p, n)->Ok_0.members, p.scope),
        t.page_saved(p, n)->Ok_0.members.len() <= t.limits.observations.0,
        forall|i: int|
            0 <= i < t.page_saved(p, n)->Ok_0.members.len() ==> fitting(
                t,
                p,
                #[trigger] t.page_saved(p, n)->Ok_0.members[i],
            ),
    decreases n,
{
    if n <= 0 {
        reveal(grown);
    } else {
        lemma_page_saved(t, p, n - 1);
        let a = t.page_saved(p, n - 1)->Ok_0;
        let b = t.page_saved(p, n)->Ok_0;
        let v = p.member(n - 1);
        lemma_same_member_fault(t, a, v);
        assert(fitting(t, p, v));
        match a.member_of(v.work) {
            Ok(Some(i)) => {
                table::lemma_index_where(
                    a.members,
                    journal::is_member(v.work.scope, v.work.entity),
                );
                assert(fitting(t, p, a.members[i]));
                let kept = b.members[i];
                lemma_grown_by_update(a.members, b.members, i, kept);
                lemma_grown_chain(t.members, a.members, b.members, p.scope);
                assert(fitting(t, p, kept));
                assert forall|j: int| 0 <= j < b.members.len() implies fitting(
                    t,
                    p,
                    #[trigger] b.members[j],
                ) by {
                    if j != i {
                        assert(b.members[j] == a.members[j]);
                    }
                }
            },
            _ => {
                let at = table::index_where(a.members, pages::not_before(v.work));
                table::lemma_index_where(a.members, pages::not_before(v.work));
                lemma_grown_by_insert(a.members, b.members, at, v);
                lemma_grown_chain(t.members, a.members, b.members, p.scope);
                assert forall|j: int| 0 <= j < b.members.len() implies fitting(
                    t,
                    p,
                    #[trigger] b.members[j],
                ) by {
                    if j < at {
                        assert(b.members[j] == a.members[j]);
                    } else if j > at {
                        assert(b.members[j] == a.members[j - 1]);
                    }
                }
            },
        }
    }
}

/// What is known of a scope.
pub open spec fn record_of(t: Notes, n: Number) -> Option<ScopeObservation> {
    if t.scope_at(n) < t.scopes.len() {
        Some(t.scopes[t.scope_at(n)])
    } else {
        None
    }
}

/// A page was taken in.
pub open spec fn taking(t: Notes, next: Notes, p: PageFacts, r: ScopeObservation) -> bool {
    &&& t.ordered()
    &&& next.ordered()
    &&& t.distinct()
    &&& sound(t)
    &&& t.page_taken(p) == Ok::<(Notes, ScopeObservation), Fault>((next, r))
}

/// The notes with the members of a page.
pub open spec fn saved_of(t: Notes, p: PageFacts) -> Notes {
    t.page_saved(p, p.entries.len() as int)->Ok_0
}

proof fn lemma_taking(t: Notes, next: Notes, p: PageFacts, r: ScopeObservation)
    requires
        taking(t, next, p, r),
    ensures
        next == (Notes { members: next.members, scopes: next.scopes, ..t }),
        next.members == saved_of(t, p).members,
        saved_of(t, p) == (Notes { members: next.members, ..t }),
        grown(t.members, next.members, p.scope),
        next.members.len() <= t.limits.observations.0,
        forall|i: int| 0 <= i < next.members.len() ==> fitting(t, p, #[trigger] next.members[i]),
        next.relations_fault() is None,
        saved_of(t, p).refreshed(t.retained(p)->0) == Ok::<ScopeObservation, Fault>(r),
        r.scope == p.scope,
        r.producer == p.producer,
        saved_of(t, p).scope_stored(r) == Ok::<Notes, Fault>(next),
        record_of(t, p.scope) matches Some(s) ==> known::merged(s, p.incoming()) == t.retained(p)
            && t.retained(p) is Some,
{
    reveal(Notes::page_taken);
    lemma_sound_bounds(t);
    let s = t.scope_at(p.scope);
    table::lemma_index_where(t.scopes, journal::is_scope(p.scope));
    assert forall|i: int| 0 <= i < t.members.len() implies fitting(
        t,
        p,
        #[trigger] t.members[i],
    ) by {
        lemma_sound_member(t, i);
    }
    lemma_page_saved(t, p, p.entries.len() as int);
    lemma_refresh_settles(saved_of(t, p), t.retained(p)->0);
}

/// Other scopes are known as they were, and the page's as the evidence gives.
proof fn lemma_taking_scopes(t: Notes, next: Notes, p: PageFacts, r: ScopeObservation)
    requires
        taking(t, next, p, r),
    ensures
        next.scopes.len() <= t.limits.observations.0,
        record_of(next, p.scope) == Some(r),
        forall|n: Number|
            n != p.scope ==> #[trigger] record_of(next, n) == record_of(t, n),
        forall|i: int|
            0 <= i < next.scopes.len() ==> (#[trigger] next.scopes[i] == r || (
            next.scopes[i].scope != p.scope && record_of(t, next.scopes[i].scope) == Some(
                next.scopes[i],
            ))),
{
    lemma_taking(t, next, p, r);
    lemma_sound_bounds(t);
    let saved = saved_of(t, p);
    let at = t.scope_at(p.scope);
    let q = journal::is_scope(p.scope);
    table::lemma_index_where(t.scopes, q);
    if at < t.scopes.len() {
        assert(next.scopes == t.scopes.update(at, r));
        assert forall|n: Number| true implies #[trigger] next.scope_at(n) == t.scope_at(n) by {
            table::lemma_index_alike(t.scopes, journal::is_scope(n), next.scopes);
        }
        assert forall|n: Number| n != p.scope implies #[trigger] record_of(next, n) == record_of(
            t,
            n,
        ) by {
            assert(next.scope_at(n) == t.scope_at(n));
            table::lemma_index_where(t.scopes, journal::is_scope(n));
        }
        assert(next.scope_at(p.scope) == at);
        assert forall|i: int| 0 <= i < next.scopes.len() implies (#[trigger] next.scopes[i] == r || (
        next.scopes[i].scope != p.scope && record_of(t, next.scopes[i].scope) == Some(
            next.scopes[i],
        ))) by {
            if i != at {
                lemma_scope_found(t, i);
            }
        }
    } else {
        let pos = table::index_where(t.scopes, pages::not_below(r.scope));
        table::lemma_index_where(t.scopes, pages::not_below(r.scope));
        assert(next.scopes == t.scopes.insert(pos, r));
        assert(next.scopes[pos] == r);
        lemma_scope_found(next, pos);
        assert forall|n: Number| n != p.scope implies #[trigger] record_of(next, n) == record_of(
            t,
            n,
        ) by {
            let k = t.scope_at(n);
            table::lemma_index_where(t.scopes, journal::is_scope(n));
            table::lemma_index_where(next.scopes, journal::is_scope(n));
            if k < t.scopes.len() {
                let moved = if k < pos {
                    k
                } else {
                    k + 1
                };
                assert(next.scopes[moved] == t.scopes[k]);
                lemma_scope_found(next, moved);
            } else {
                let l = next.scope_at(n);
                if l < next.scopes.len() {
                    let back = if l < pos {
                        l
                    } else {
                        l - 1
                    };
                    assert(next.scopes[l].scope == n);
                    assert(l != pos);
                    assert(t.scopes[back] == next.scopes[l]);
                    assert(!journal::is_scope(n)(t.scopes[back]));
                }
            }
        }
        assert forall|i: int| 0 <= i < next.scopes.len() implies (#[trigger] next.scopes[i] == r || (
        next.scopes[i].scope != p.scope && record_of(t, next.scopes[i].scope) == Some(
            next.scopes[i],
        ))) by {
            if i != pos {
                let back = if i < pos {
                    i
                } else {
                    i - 1
                };
                assert(t.scopes[back] == next.scopes[i]);
                lemma_scope_found(t, back);
                assert(!q(t.scopes[back]));
            }
        }
    }
}

/// Work is a member exactly where a member is that work.
proof fn lemma_member_known(t: Notes, work: WorkKey)
    requires
        t.ordered(),
    ensures
        (t.member_of(work) matches Ok(Some(_))) <==> exists|i: int|
            0 <= i < t.scope_members(work.scope).len() && (#[trigger] t.scope_members(
                work.scope,
            )[i]).work == work,
{
    let q = known::member_of_scope(work.scope);
    let rows = t.scope_members(work.scope);
    table::lemma_index_where(t.members, journal::is_member(work.scope, work.entity));
    let i = t.member_at(work.scope, work.entity);
    if t.member_of(work) matches Ok(Some(_)) {
        lemma_row_found(t.members, q, i);
        let j = choose|j: int| 0 <= j < rows.len() && #[trigger] rows[j] == t.members[i];
        assert(rows[j].work == work);
    }
    if exists|i: int| 0 <= i < rows.len() && (#[trigger] rows[i]).work == work {
        let i = choose|i: int| 0 <= i < rows.len() && (#[trigger] rows[i]).work == work;
        let j = lemma_scope_member(t, work.scope, i);
        lemma_member_found(t, j);
    }
}

/// A row that satisfies the predicate is among those that do.
proof fn lemma_row_found<T>(s: Seq<T>, p: spec_fn(T) -> bool, i: int)
    requires
        0 <= i < s.len(),
        p(s[i]),
    ensures
        exists|j: int|
            0 <= j < table::rows_where(s, p).len() && #[trigger] table::rows_where(s, p)[j] == s[i],
    decreases s.len(),
{
    let rows = table::rows_where(s, p);
    let front = table::rows_where(s.drop_last(), p);
    if i == s.len() - 1 {
        assert(rows[rows.len() - 1] == s[i]);
    } else {
        lemma_row_found(s.drop_last(), p, i);
        let j = choose|j: int| 0 <= j < front.len() && #[trigger] front[j] == s.drop_last()[i];
        assert(rows[j] == front[j]);
    }
}

/// Members of other scopes are members still, and no others are.
proof fn lemma_taking_member_of(
    t: Notes,
    next: Notes,
    p: PageFacts,
    r: ScopeObservation,
    work: WorkKey,
)
    requires
        taking(t, next, p, r),
        work.scope != p.scope,
    ensures
        next.scope_members(work.scope) == t.scope_members(work.scope),
        (next.member_of(work) matches Ok(Some(_))) == (t.member_of(work) matches Ok(Some(_))),
{
    lemma_taking(t, next, p, r);
    reveal(grown);
    lemma_member_known(t, work);
    lemma_member_known(next, work);
}

/// A declaration elsewhere is part of a membership as it was.
proof fn lemma_taking_declaration(
    t: Notes,
    next: Notes,
    p: PageFacts,
    r: ScopeObservation,
    scope: ScopeObservation,
    intent: Intent,
)
    requires
        taking(t, next, p, r),
        scope.scope != p.scope,
    ensures
        next.declaration_fault(scope, intent) == t.declaration_fault(scope, intent),
{
    match intent.mutation {
        Mutation::Declare { entity_ids, .. } => {
            let ids = entity_ids@;
            let f = t.entity_check(scope);
            let g = next.entity_check(scope);
            assert forall|j: int| 0 <= j < ids.len() implies f(#[trigger] ids[j]) == g(ids[j]) by {
                lemma_taking_member_of(
                    t,
                    next,
                    p,
                    r,
                    WorkKey { scope: scope.scope, producer: scope.producer, entity: ids[j] },
                );
            }
            alike::lemma_faults_alike(ids, f, ids, g);
        },
        _ => {},
    }
}

/// What is known of another scope is what the evidence gives still.
proof fn lemma_taking_refresh(
    t: Notes,
    next: Notes,
    p: PageFacts,
    r: ScopeObservation,
    scope: ScopeObservation,
)
    requires
        taking(t, next, p, r),
        scope.scope != p.scope,
    ensures
        next.refreshed(scope) == t.refreshed(scope),
{
    reveal(Notes::refreshed);
    lemma_taking(t, next, p, r);
    lemma_taking_member_of(
        t,
        next,
        p,
        r,
        WorkKey { scope: scope.scope, producer: scope.producer, entity: Id(1) },
    );
    lemma_same_declarations(t, next, t.operations, next.operations, scope);
    lemma_applied_scope(t, t.operations, scope);
    if t.with_declarations(t.operations, scope) is Ok {
        let applied = t.with_declarations(t.operations, scope)->Ok_0;
        let complete = applied.seal is Some && t.scope_members(scope.scope).len()
            == applied.declared.0;
        let known = ScopeObservation { membership_verified: complete, ..applied };
        assert(next.seal_fault(applied) == t.seal_fault(applied));
        let f = t.declared_check(known);
        let g = next.declared_check(known);
        assert forall|j: int| 0 <= j < t.operations.len() implies f(#[trigger] t.operations[j])
            == g(next.operations[j]) by {
            lemma_taking_declaration(t, next, p, r, known, t.operations[j].intent);
        }
        alike::lemma_faults_alike(t.operations, f, next.operations, g);
        let f = t.observed_check(known);
        let g = next.observed_check(known);
        assert forall|j: int| 0 <= j < t.observations.len() implies f(#[trigger] t.observations[j])
            == g(next.observations[j]) by {
            let work = t.observations[j].view.work;
            if work.scope == known.scope {
                lemma_taking_member_of(t, next, p, r, work);
            }
        }
        alike::lemma_faults_alike(t.observations, f, next.observations, g);
        let f = t.published_check(known);
        let g = next.published_check(known);
        assert forall|j: int| 0 <= j < t.manifests.len() implies f(#[trigger] t.manifests[j]) == g(
            next.manifests[j],
        ) by {
            let work = t.manifests[j].work;
            if work.scope == known.scope {
                lemma_taking_member_of(t, next, p, r, work);
            }
        }
        alike::lemma_faults_alike(t.manifests, f, next.manifests, g);
    }
}

proof fn lemma_taking_manifest(
    t: Notes,
    next: Notes,
    p: PageFacts,
    r: ScopeObservation,
    k: int,
)
    requires
        taking(t, next, p, r),
        0 <= k < t.manifests.len(),
    ensures
        next.manifest_problem(t.manifests[k]) is None,
{
    let m = t.manifests[k];
    lemma_taking(t, next, p, r);
    lemma_sound_manifest(t, k);
    assert(next.manifest_check()(m) is None) by {
        reveal(Notes::relations_fault);
        table::lemma_first_fault_none(next.manifests, next.manifest_check());
        assert(next.manifests[k] == m);
    }
    let f = t.manifest_receipts(m);
    let g = next.manifest_receipts(m);
    assert forall|j: int| 0 <= j < t.operations.len() implies f(#[trigger] t.operations[j]) == g(
        next.operations[j],
    ) by {}
    alike::lemma_faults_alike(t.operations, f, next.operations, g);
    reveal(Notes::manifest_problem);
}

proof fn lemma_taking_stands(
    t: Notes,
    next: Notes,
    p: PageFacts,
    r: ScopeObservation,
    k: int,
)
    requires
        taking(t, next, p, r),
        0 <= k < t.observations.len(),
    ensures
        next.stands()(t.observations[k]) is None,
{
    let o = t.observations[k];
    let v = o.view;
    lemma_taking(t, next, p, r);
    lemma_sound_observation(t, k);
    assert(next.view_check()(o) is None) by {
        reveal(Notes::relations_fault);
        table::lemma_first_fault_none(next.observations, next.view_check());
        assert(next.observations[k] == o);
    }
    let f = t.view_receipts(v);
    let g = next.view_receipts(v);
    assert forall|j: int| 0 <= j < t.operations.len() implies f(#[trigger] t.operations[j]) == g(
        next.operations[j],
    ) by {}
    alike::lemma_faults_alike(t.operations, f, next.operations, g);
    if v.manifest is Some {
        let q = t.manifest_at(v.work);
        table::lemma_index_where(t.manifests, journal::is_manifest(v.work));
        lemma_taking_manifest(t, next, p, r, q);
        lemma_framed_by(next, next);
        lemma_seen_by(next, next);
        alike::lemma_manifest_problem_alike(next, next, t.manifests[q], v.manifest->0);
    }
    reveal(Notes::view_problem);
}

proof fn lemma_taking_entry(
    t: Notes,
    next: Notes,
    p: PageFacts,
    r: ScopeObservation,
    j: int,
)
    requires
        taking(t, next, p, r),
        0 <= j < t.operations.len(),
    ensures
        next.entry_check()(t.operations[j]) is None,
{
    let e = t.operations[j];
    lemma_taking(t, next, p, r);
    lemma_sound_entry(t, j);
    if e.receipt is Some {
        let receipt = e.receipt->0;
        let work = receipts::target_of(e.intent);
        if work is Some {
            assert(next.work_check()(e) is None) by {
                reveal(Notes::relations_fault);
                table::lemma_first_fault_none(next.operations, next.work_check());
                assert(next.operations[j] == e);
            }
        } else if e.intent.mutation is Declare {
            lemma_taking_declared(t, next, p, r, j);
        }
        let f = t.pairs(e.intent, receipt);
        let g = next.pairs(e.intent, receipt);
        assert forall|l: int| 0 <= l < t.operations.len() implies f(#[trigger] t.operations[l])
            == g(next.operations[l]) by {}
        alike::lemma_faults_alike(t.operations, f, next.operations, g);
        reveal(Notes::receipt_problem);
    }
}

/// The answer of a declaration stands.
proof fn lemma_taking_declared(
    t: Notes,
    next: Notes,
    p: PageFacts,
    r: ScopeObservation,
    j: int,
)
    requires
        taking(t, next, p, r),
        0 <= j < t.operations.len(),
        t.operations[j].receipt is Some,
        t.operations[j].intent.mutation is Declare,
    ensures
        next.scope_receipt_fault(t.operations[j].intent, t.operations[j].receipt->0) is None,
{
    let e = t.operations[j];
    let n = e.intent.mutation->Declare_scope;
    lemma_taking(t, next, p, r);
    lemma_taking_scopes(t, next, p, r);
    let saved = saved_of(t, p);
    if n == p.scope {
        lemma_refresh_settles(saved, t.retained(p)->0);
        lemma_same_refresh(saved, next, r);
        assert(known::declares(saved.operations[j], n));
        assert(absorbed(r, e.receipt->0));
        assert(next.membership_fault(r) is None);
        let f = next.declared_check(r);
        table::lemma_first_fault_none(next.operations, f);
        assert(f(next.operations[j]) is None);
        assert(record_of(next, n) == Some(r));
    } else {
        assert(record_of(next, n) == record_of(t, n));
        lemma_sound_entry(t, j);
        reveal(Notes::receipt_problem);
        let at = t.scope_at(n);
        if at < t.scopes.len() {
            table::lemma_index_where(t.scopes, journal::is_scope(n));
            match known::declaration_applied(t.scopes[at], e.receipt->0) {
                Ok(observed) => lemma_taking_declaration(t, next, p, r, observed, e.intent),
                Err(_) => {},
            }
        }
    }
}

/// Every scope is what the evidence gives.
proof fn lemma_taking_scope(
    t: Notes,
    next: Notes,
    p: PageFacts,
    r: ScopeObservation,
    i: int,
)
    requires
        taking(t, next, p, r),
        0 <= i < next.scopes.len(),
    ensures
        next.scope_fault(next.scopes[i]) is None,
{
    let s = next.scopes[i];
    lemma_taking(t, next, p, r);
    lemma_taking_scopes(t, next, p, r);
    assert(next.place_check()(s) is None) by {
        reveal(Notes::relations_fault);
        table::lemma_first_fault_none(next.scopes, next.place_check());
        assert(next.scopes[i] == s);
    }
    if s == r {
        let saved = saved_of(t, p);
        lemma_refresh_settles(saved, t.retained(p)->0);
        lemma_same_refresh(saved, next, r);
    } else {
        let k = t.scope_at(s.scope);
        table::lemma_index_where(t.scopes, journal::is_scope(s.scope));
        lemma_sound_scope(t, k);
        lemma_taking_refresh(t, next, p, r, s);
    }
}

/// A scope that is closed is known as it was, with the same work in it.
proof fn lemma_taking_closed(
    t: Notes,
    next: Notes,
    p: PageFacts,
    r: ScopeObservation,
    summary: ScopeSummary,
)
    requires
        taking(t, next, p, r),
        t.coverage_fault(summary) is None,
    ensures
        record_of(t, summary.scope) is Some,
        record_of(next, summary.scope) == record_of(t, summary.scope),
        same_works(t.scope_members(summary.scope), next.scope_members(summary.scope)),
{
    lemma_taking(t, next, p, r);
    lemma_taking_scopes(t, next, p, r);
    let n = summary.scope;
    let k = t.scope_at(n);
    table::lemma_index_where(t.scopes, journal::is_scope(n));
    let scope = t.scopes[k];
    assert(k < t.scopes.len() && t.scope_fault(scope) is None && scope.membership_verified
        && scope.seal is Some) by {
        reveal(Notes::coverage_fault);
    }
    if n == p.scope {
        let saved = saved_of(t, p);
        reveal(Notes::refreshed);
        reveal(grown);
        assert(record_of(t, n) == Some(scope));
        assert(t.retained(p)->0 == scope);
        lemma_applied_scope(t, t.operations, scope);
        lemma_applied_scope(saved, saved.operations, scope);
        assert(saved.scope_members(n) == next.scope_members(n));
        assert(r == scope);
    } else {
        assert(record_of(next, n) == record_of(t, n));
        lemma_taking_member_of(
            t,
            next,
            p,
            r,
            WorkKey { scope: n, producer: scope.producer, entity: Id(1) },
        );
    }
}

proof fn lemma_tally_of_works(
    a: Notes,
    b: Notes,
    rows: Seq<ScopeMember>,
    others: Seq<ScopeMember>,
)
    requires
        same_works(rows, others),
        b.observations == a.observations,
        b.coverage == a.coverage,
    ensures
        a.tally(rows) == b.tally(others),
        a.closing_leaves(rows) == b.closing_leaves(others),
    decreases rows.len(),
{
    if rows.len() > 0 {
        let front = rows.drop_last();
        let rest = others.drop_last();
        assert forall|i: int| 0 <= i < front.len() implies (#[trigger] front[i]).work
            == rest[i].work by {
            assert(front[i] == rows[i]);
        }
        lemma_tally_of_works(a, b, front, rest);
        assert(rows[rows.len() - 1].work == others[rows.len() - 1].work);
    }
}

proof fn lemma_taking_coverage(
    t: Notes,
    next: Notes,
    p: PageFacts,
    r: ScopeObservation,
    summary: ScopeSummary,
)
    requires
        taking(t, next, p, r),
        t.coverage_fault(summary) is None,
    ensures
        next.coverage_fault(summary) is None,
{
    lemma_taking(t, next, p, r);
    lemma_taking_closed(t, next, p, r, summary);
    let scope = record_of(t, summary.scope)->0;
    let k = next.scope_at(summary.scope);
    table::lemma_index_where(next.scopes, journal::is_scope(summary.scope));
    lemma_taking_scope(t, next, p, r, k);
    let rows = t.scope_members(summary.scope);
    let others = next.scope_members(summary.scope);
    let f = t.closing_check(scope, summary);
    let g = next.closing_check(scope, summary);
    table::lemma_first_fault_none(rows, f);
    table::lemma_first_fault_none(others, g);
    assert(table::first_fault(rows, f) is None) by {
        reveal(Notes::coverage_fault);
    }
    assert forall|i: int| 0 <= i < others.len() implies g(#[trigger] others[i]) is None by {
        assert(f(rows[i]) is None);
        assert(rows[i].work == others[i].work);
        let j = lemma_scope_member(next, summary.scope, i);
        assert(fitting(t, p, next.members[j]));
        lemma_same_member_fault(t, next, next.members[j]);
        let o = t.observed_at(rows[i].work);
        table::lemma_index_where(t.observations, journal::is_observed(rows[i].work));
        lemma_taking_stands(t, next, p, r, o);
    }
    lemma_tally_of_works(t, next, rows, others);
    reveal(Notes::coverage_fault);
}

/// Taking in a page keeps what passes the audit passing it.
pub proof fn law_page_keeps_the_audit(t: Notes, p: PageFacts, next: Notes, r: ScopeObservation)
    requires
        t.ordered(),
        next.ordered(),
        t.distinct(),
        t.audit_fault() is None,
        t.page_taken(p) == Ok::<(Notes, ScopeObservation), Fault>((next, r)),
    ensures
        next.distinct(),
        next.audit_fault() is None,
{
    reveal(journal::works_distinct);
    lemma_sound(t);
    lemma_sound_bounds(t);
    lemma_taking(t, next, p, r);
    lemma_taking_scopes(t, next, p, r);
    assert forall|i: int| 0 <= i < next.operations.len() implies next.entry_check()(
        #[trigger] next.operations[i],
    ) is None by {
        lemma_taking_entry(t, next, p, r, i);
    }
    assert forall|i: int| 0 <= i < next.observations.len() implies next.stands()(
        #[trigger] next.observations[i],
    ) is None by {
        lemma_taking_stands(t, next, p, r, i);
    }
    assert forall|i: int| 0 <= i < next.manifests.len() implies next.manifest_problem(
        #[trigger] next.manifests[i],
    ) is None by {
        lemma_taking_manifest(t, next, p, r, i);
    }
    assert forall|i: int| 0 <= i < next.references.len() implies next.reference_check()(
        #[trigger] next.references[i],
    ) is None by {
        reveal(Notes::reference_fault);
        let e = t.references[i];
        lemma_sound_reference(t, i);
        table::lemma_index_where(t.manifests, journal::is_manifest(e.work));
        lemma_taking_manifest(t, next, p, r, t.manifest_at(e.work));
    }
    assert forall|i: int| 0 <= i < next.scopes.len() implies next.scope_stands()(
        #[trigger] next.scopes[i],
    ) is None by {
        lemma_taking_scope(t, next, p, r, i);
        let n = next.scopes[i].scope;
        let c = t.coverage_at(n);
        if c < t.coverage.len() {
            table::lemma_index_where(t.coverage, journal::is_coverage(n));
            lemma_covered(t, c);
            lemma_taking_coverage(t, next, p, r, t.coverage[c]);
        }
    }
    assert forall|i: int| 0 <= i < next.members.len() implies next.member_stands()(
        #[trigger] next.members[i],
    ) is None by {
        lemma_taking_member(t, next, p, r, i);
    }
    assert(next.adopted()) by {
        assert forall|i: int| 0 <= i < next.members.len() implies next.scope_at(
            (#[trigger] next.members[i]).work.scope,
        ) < next.scopes.len() by {
            lemma_taking_member(t, next, p, r, i);
        }
        assert forall|i: int| 0 <= i < next.coverage.len() implies next.scope_at(
            (#[trigger] next.coverage[i]).scope,
        ) < next.scopes.len() by {
            let n = t.coverage[i].scope;
            assert(t.scope_at(n) < t.scopes.len());
            if n != p.scope {
                assert(record_of(next, n) == record_of(t, n));
            }
        }
    }
    lemma_all_stand(next);
}

/// The closure that stands for a known scope stands.
pub proof fn lemma_covered(t: Notes, c: int)
    requires
        t.ordered(),
        sound(t),
        0 <= c < t.coverage.len(),
        t.coverage_at(t.coverage[c].scope) == c,
    ensures
        t.coverage_fault(t.coverage[c]) is None,
{
    lemma_sound_bounds(t);
    let n = t.coverage[c].scope;
    let k = t.scope_at(n);
    table::lemma_index_where(t.scopes, journal::is_scope(n));
    assert(k < t.scopes.len());
    lemma_sound_scope(t, k);
}

proof fn lemma_taking_member(
    t: Notes,
    next: Notes,
    p: PageFacts,
    r: ScopeObservation,
    i: int,
)
    requires
        taking(t, next, p, r),
        0 <= i < next.members.len(),
    ensures
        next.member_stands()(next.members[i]) is None,
        next.scope_at(next.members[i].work.scope) < next.scopes.len(),
{
    let m = next.members[i];
    let n = m.work.scope;
    lemma_taking(t, next, p, r);
    lemma_taking_scopes(t, next, p, r);
    assert(fitting(t, p, m));
    lemma_same_member_fault(t, next, m);
    if n == p.scope {
        assert(record_of(next, n) == Some(r));
    } else {
        assert(record_of(next, n) == record_of(t, n));
        let q = known::member_of_scope(n);
        lemma_row_found(next.members, q, i);
        let rows = next.scope_members(n);
        let j = choose|j: int| 0 <= j < rows.len() && #[trigger] rows[j] == next.members[i];
        lemma_taking_member_of(t, next, p, r, m.work);
        let k = lemma_scope_member(t, n, j);
        lemma_sound_member(t, k);
    }
}

} // verus!
