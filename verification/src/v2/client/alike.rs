//! Notes that say the same are audited alike, and intents without an answer add nothing to object to.

use super::super::authority::table;
use super::super::commitments::{Mutation, SessionIdentity};
use super::super::numbers::Number;
use super::super::records::{
    self, Input, Manifest, OperationReceipt, Outcome, ScopeSummary, WorkKey, WorkView,
};
use super::super::wire::{self, Wire};
use super::journal::{self, Notes, OperationEntry};
use super::known;
use super::observations;
use super::receipts;
use super::records::{ObservedWork, ScopeMember, ScopeObservation};
use super::storage::{self, Intent};
use vstd::prelude::*;

verus! {

/// The entries hold the same intent and the same answer.
pub open spec fn alike_entries(a: OperationEntry, b: OperationEntry) -> bool {
    a.intent.agrees(b.intent) && a.receipt == b.receipt
}

/// The second notes have the scopes, members and answers of the first, and perhaps further intents that
/// nothing has answered.
#[verifier::opaque]
pub open spec fn framed(a: Notes, b: Notes) -> bool {
    &&& a.creation == b.creation && a.limits == b.limits
    &&& a.bound is Some == b.bound is Some
    &&& a.bound is Some ==> a.bound->0.identity.agrees(b.bound->0.identity)
    &&& a.scopes == b.scopes
    &&& a.members == b.members
    &&& a.operations.len() <= b.operations.len()
    &&& forall|i: int|
        0 <= i < a.operations.len() ==> alike_entries(#[trigger] a.operations[i], b.operations[i])
    &&& forall|i: int|
        a.operations.len() <= i < b.operations.len() ==> (#[trigger] b.operations[i]).receipt is None
}

/// The second notes also hold what the first observed.
#[verifier::opaque]
pub open spec fn seen(a: Notes, b: Notes) -> bool {
    &&& framed(a, b)
    &&& a.observations.len() == b.observations.len()
    &&& forall|i: int|
        0 <= i < a.observations.len() ==> (#[trigger] a.observations[i]).agrees(&b.observations[i])
}

/// The second notes also hold the manifests of the first.
#[verifier::opaque]
pub open spec fn alike(a: Notes, b: Notes) -> bool {
    &&& seen(a, b)
    &&& a.manifests.len() == b.manifests.len()
    &&& forall|i: int|
        0 <= i < a.manifests.len() ==> (#[trigger] a.manifests[i]).agrees(&b.manifests[i])
}

pub proof fn lemma_framed(a: Notes, b: Notes)
    requires
        framed(a, b),
    ensures
        a.creation == b.creation,
        a.limits == b.limits,
        a.bound is Some == b.bound is Some,
        a.scopes == b.scopes,
        a.members == b.members,
        a.operations.len() <= b.operations.len(),
        forall|i: int|
            a.operations.len() <= i < b.operations.len() ==> (
            #[trigger] b.operations[i]).receipt is None,
{
    reveal(framed);
}

proof fn lemma_identity(a: Notes, b: Notes)
    requires
        framed(a, b),
        a.bound is Some,
    ensures
        b.bound is Some,
        a.bound->0.identity.agrees(b.bound->0.identity),
{
    reveal(framed);
}

pub proof fn lemma_seen(a: Notes, b: Notes)
    requires
        seen(a, b),
    ensures
        framed(a, b),
        a.observations.len() == b.observations.len(),
{
    reveal(seen);
}

pub proof fn lemma_observation(a: Notes, b: Notes, i: int)
    requires
        seen(a, b),
        0 <= i < a.observations.len(),
    ensures
        a.observations[i].agrees(&b.observations[i]),
        a.observations[i].view.agrees(&b.observations[i].view),
{
    reveal(seen);
}

pub proof fn lemma_alike(a: Notes, b: Notes)
    requires
        alike(a, b),
    ensures
        seen(a, b),
        a.manifests.len() == b.manifests.len(),
{
    reveal(alike);
}

proof fn lemma_manifest(a: Notes, b: Notes, i: int)
    requires
        alike(a, b),
        0 <= i < a.manifests.len(),
    ensures
        a.manifests[i].agrees(&b.manifests[i]),
{
    reveal(alike);
}

pub proof fn lemma_faults_alike<T, F>(
    s: Seq<T>,
    f: spec_fn(T) -> Option<F>,
    t: Seq<T>,
    g: spec_fn(T) -> Option<F>,
)
    requires
        s.len() <= t.len(),
        forall|i: int| 0 <= i < s.len() ==> f(#[trigger] s[i]) == g(t[i]),
        forall|i: int| s.len() <= i < t.len() ==> g(#[trigger] t[i]) is None,
    ensures
        table::first_fault(s, f) == table::first_fault(t, g),
    decreases t.len(),
{
    if t.len() > s.len() {
        assert forall|i: int| s.len() <= i < t.len() - 1 implies g(
            #[trigger] t.drop_last()[i],
        ) is None by {
            assert(t.drop_last()[i] == t[i]);
        }
        lemma_faults_alike(s, f, t.drop_last(), g);
        assert(g(t[t.len() - 1]) is None);
    } else if s.len() > 0 {
        assert forall|i: int| 0 <= i < s.len() - 1 implies f(#[trigger] s.drop_last()[i]) == g(
            t.drop_last()[i],
        ) by {
            assert(s.drop_last()[i] == s[i]);
        }
        lemma_faults_alike(s.drop_last(), f, t.drop_last(), g);
        assert(f(s[s.len() - 1]) == g(t[s.len() - 1]));
    }
}

/// Inputs that agree are told apart by nothing.
proof fn lemma_inputs_alike(a: Input, b: Input, c: Input, d: Input)
    requires
        a.agrees(&b),
        c.agrees(&d),
    ensures
        a.agrees(&c) == b.agrees(&d),
        a.sha256.0@ == b.sha256.0@,
{
}

/// What agreeing manifests have in common.
pub proof fn lemma_manifests_alike(a: Manifest, b: Manifest)
    requires
        a.agrees(&b),
    ensures
        b.agrees(&a),
        a.authority.0@ == b.authority.0@,
        a.owner.0@ == b.owner.0@,
        a.generation == b.generation,
        a.work == b.work,
        a.attempt == b.attempt,
        a.input_sha256.0@ == b.input_sha256.0@,
        a.committed_at == b.committed_at,
        a.available_until == b.available_until,
        a.outputs@.len() == b.outputs@.len(),
        a.valid() == b.valid(),
        a.wire() == b.wire(),
        a.manifest_digest() == b.manifest_digest(),
        records::output_octets(a.outputs@) == records::output_octets(b.outputs@),
{
    Manifest::agrees_carries(&a, &b);
    assert(wire::items_agree(a.outputs@, b.outputs@));
    lemma_octets_alike(a.outputs@, b.outputs@);
}

proof fn lemma_octets_alike(a: Seq<records::Output>, b: Seq<records::Output>)
    requires
        wire::items_agree(a, b),
    ensures
        records::output_octets(a) == records::output_octets(b),
    decreases a.len(),
{
    if a.len() > 0 {
        assert(a.last().agrees(&b.last()));
        assert forall|i: int| 0 <= i < a.len() - 1 implies (#[trigger] a.drop_last()[i]).agrees(
            &b.drop_last()[i],
        ) by {
            assert(a[i].agrees(&b[i]));
        }
        lemma_octets_alike(a.drop_last(), b.drop_last());
    }
}

/// Manifests that agree are told apart by nothing.
pub proof fn lemma_manifests_chain(a: Manifest, b: Manifest, c: Manifest, d: Manifest)
    requires
        a.agrees(&b),
        c.agrees(&d),
    ensures
        a.agrees(&c) == b.agrees(&d),
{
    lemma_manifests_alike(a, b);
    lemma_manifests_alike(c, d);
    if a.agrees(&c) {
        assert forall|i: int| 0 <= i < b.outputs@.len() implies (#[trigger] b.outputs@[i]).agrees(
            &d.outputs@[i],
        ) by {
            assert(a.outputs@[i].agrees(&b.outputs@[i]));
            assert(a.outputs@[i].agrees(&c.outputs@[i]));
            assert(c.outputs@[i].agrees(&d.outputs@[i]));
        }
        assert(b.agrees(&d));
    }
    if b.agrees(&d) {
        assert forall|i: int| 0 <= i < a.outputs@.len() implies (#[trigger] a.outputs@[i]).agrees(
            &c.outputs@[i],
        ) by {
            assert(a.outputs@[i].agrees(&b.outputs@[i]));
            assert(b.outputs@[i].agrees(&d.outputs@[i]));
            assert(c.outputs@[i].agrees(&d.outputs@[i]));
        }
        assert(a.agrees(&c));
    }
}

/// The views show the same course of the same work.
pub open spec fn same_course(v: WorkView, w: WorkView) -> bool {
    &&& v.work == w.work
    &&& v.state == w.state
    &&& v.attempt == w.attempt
    &&& v.admitted_at == w.admitted_at
    &&& v.deadline == w.deadline
    &&& v.terminal_at == w.terminal_at
    &&& v.receipt_until == w.receipt_until
    &&& v.child == w.child
}

/// What agreeing views have in common.
pub proof fn lemma_views_alike(a: WorkView, b: WorkView)
    requires
        a.agrees(&b),
    ensures
        same_course(a, b),
        a.input is Some == b.input is Some,
        a.input is Some ==> a.input->0.agrees(&b.input->0),
        a.manifest is Some == b.manifest is Some,
        a.manifest is Some ==> a.manifest->0.agrees(&b.manifest->0),
        a.valid() == b.valid(),
        a.wire() == b.wire(),
{
    WorkView::agrees_carries(&a, &b);
}

/// What agreeing intents have in common.
proof fn lemma_intents_alike(a: Intent, b: Intent)
    requires
        a.agrees(b),
    ensures
        receipts::target_of(a) == receipts::target_of(b),
        a.mutation is Admit == b.mutation is Admit,
        a.mutation is Admit ==> a.mutation->Admit_0.agrees(&b.mutation->Admit_0)
            && a.mutation->Admit_0.work == b.mutation->Admit_0.work
            && a.mutation->Admit_0.execution_ms == b.mutation->Admit_0.execution_ms
            && a.mutation->Admit_0.outputs == b.mutation->Admit_0.outputs
            && a.mutation->Admit_0.input.agrees(&b.mutation->Admit_0.input)
            && a.mutation->Admit_0.valid() == b.mutation->Admit_0.valid()
            && a.mutation->Admit_0.wire() == b.mutation->Admit_0.wire(),
        a.mutation is ScopeCancel == b.mutation is ScopeCancel,
{
    if a.mutation is Admit {
        let p = a.mutation->Admit_0;
        let q = b.mutation->Admit_0;
        records::AdmitParameters::agrees_carries(&p, &q);
    }
}

proof fn lemma_seen_places(a: Notes, b: Notes, work: WorkKey)
    requires
        seen(a, b),
    ensures
        a.observed_at(work) == b.observed_at(work),
        0 <= a.observed_at(work) <= a.observations.len(),
        a.observed_at(work) < a.observations.len() ==> a.observations[a.observed_at(
            work,
        )].view.agrees(&b.observations[a.observed_at(work)].view),
{
    lemma_seen(a, b);
    let p = journal::is_observed(work);
    assert forall|i: int| 0 <= i < a.observations.len() implies p(#[trigger] a.observations[i])
        == p(b.observations[i]) by {
        lemma_observation(a, b, i);
        lemma_views_alike(a.observations[i].view, b.observations[i].view);
    }
    table::lemma_index_alike(a.observations, p, b.observations);
    table::lemma_index_where(a.observations, p);
    if a.observed_at(work) < a.observations.len() {
        lemma_observation(a, b, a.observed_at(work));
    }
}

pub proof fn lemma_places_alike(a: Notes, b: Notes, work: WorkKey)
    requires
        alike(a, b),
    ensures
        a.observed_at(work) == b.observed_at(work),
        a.manifest_at(work) == b.manifest_at(work),
        0 <= a.observed_at(work) <= a.observations.len(),
        0 <= a.manifest_at(work) <= a.manifests.len(),
        a.observed_at(work) < a.observations.len() ==> a.observations[a.observed_at(
            work,
        )].view.agrees(&b.observations[a.observed_at(work)].view),
        a.manifest_at(work) < a.manifests.len() ==> a.manifests[a.manifest_at(work)].agrees(
            &b.manifests[a.manifest_at(work)],
        ),
{
    lemma_alike(a, b);
    lemma_seen_places(a, b, work);
    let q = journal::is_manifest(work);
    assert forall|i: int| 0 <= i < a.manifests.len() implies q(#[trigger] a.manifests[i]) == q(
        b.manifests[i],
    ) by {
        lemma_manifest(a, b, i);
        lemma_manifests_alike(a.manifests[i], b.manifests[i]);
    }
    table::lemma_index_alike(a.manifests, q, b.manifests);
    table::lemma_index_where(a.manifests, q);
    if a.manifest_at(work) < a.manifests.len() {
        lemma_manifest(a, b, a.manifest_at(work));
    }
}

pub proof fn lemma_descent_alike(a: Notes, b: Notes, scope: Number, ancestor: Number)
    requires
        a.scopes == b.scopes,
    ensures
        a.descends(scope, ancestor) == b.descends(scope, ancestor),
    decreases scope.0,
{
    let i = a.scope_at(scope);
    if !(ancestor.0 == 0 || scope == ancestor || scope.0 < ancestor.0) && i < a.scopes.len() {
        match a.scopes[i].parent {
            Some(parent) => {
                if parent.scope.0 < scope.0 {
                    lemma_descent_alike(a, b, parent.scope, ancestor);
                }
            },
            None => {},
        }
    }
}

proof fn lemma_fences_alike(
    a: Notes,
    b: Notes,
    scope: Number,
    f: spec_fn(Number) -> bool,
    g: spec_fn(Number) -> bool,
)
    requires
        framed(a, b),
        forall|n: Number| #[trigger] f(n) == g(n),
    ensures
        a.fences_fault(scope, f) == b.fences_fault(scope, g),
{
    lemma_framed(a, b);
    let x = a.fence_check(scope, f);
    let y = b.fence_check(scope, g);
    assert forall|i: int| 0 <= i < a.operations.len() implies x(#[trigger] a.operations[i]) == y(
        b.operations[i],
    ) by {
        let e = a.operations[i];
        lemma_about_alike(a, b, i);
        lemma_intents_alike(e.intent, b.operations[i].intent);
        if e.receipt is Some {
            match e.receipt->0.body {
                Outcome::ScopeCancelled { scope: ancestor, accepted_at } => {
                    lemma_descent_alike(a, b, scope, ancestor);
                    assert(f(accepted_at) == g(accepted_at));
                },
                _ => {},
            }
        }
    }
    lemma_faults_alike(a.operations, x, b.operations, y);
}

/// The retained views of the work show the same course.
pub proof fn lemma_courses_alike(a: Notes, b: Notes, work: WorkKey)
    requires
        seen(a, b),
    ensures
        a.observed_at(work) == b.observed_at(work),
        a.observed_at(work) < a.observations.len() ==> same_course(
            a.observations[a.observed_at(work)].view,
            b.observations[a.observed_at(work)].view,
        ),
{
    lemma_seen_places(a, b, work);
    let o = a.observed_at(work);
    if o < a.observations.len() {
        lemma_views_alike(a.observations[o].view, b.observations[o].view);
    }
}

/// An entry is about the same work as one that is alike.
proof fn lemma_about_alike(a: Notes, b: Notes, i: int)
    requires
        framed(a, b),
        0 <= i < a.operations.len(),
    ensures
        forall|work: WorkKey|
            #[trigger] known::about(a.operations[i], work) == known::about(b.operations[i], work),
        a.operations[i].receipt == b.operations[i].receipt,
        a.operations[i].intent.agrees(b.operations[i].intent),
{
    lemma_framed(a, b);
    reveal(framed);
    assert(alike_entries(a.operations[i], b.operations[i]));
    lemma_intents_alike(a.operations[i].intent, b.operations[i].intent);
}

pub proof fn lemma_place_alike(a: Notes, b: Notes, scope: ScopeObservation)
    requires
        seen(a, b),
    ensures
        a.place_fault(scope) == b.place_fault(scope),
{
    lemma_seen(a, b);
    lemma_framed(a, b);
    let work = scope.parent->0;
    lemma_courses_alike(a, b, work);
    let x = a.child_check(scope, work);
    let y = b.child_check(scope, work);
    assert forall|i: int| 0 <= i < a.operations.len() implies x(#[trigger] a.operations[i]) == y(
        b.operations[i],
    ) by {
        lemma_about_alike(a, b, i);
        assert(known::about(a.operations[i], work) == known::about(b.operations[i], work));
    }
    lemma_faults_alike(a.operations, x, b.operations, y);
}

pub proof fn lemma_member_alike(a: Notes, b: Notes, member: ScopeMember)
    requires
        alike(a, b),
    ensures
        a.member_fault(member) == b.member_fault(member),
{
    lemma_alike(a, b);
    lemma_seen(a, b);
    lemma_framed(a, b);
    let work = member.work;
    lemma_courses_alike(a, b, work);
    lemma_places_alike(a, b, work);
    let x = a.hint_check(work, member.terminal->0);
    let y = b.hint_check(work, member.terminal->0);
    assert forall|i: int| 0 <= i < a.operations.len() implies x(#[trigger] a.operations[i]) == y(
        b.operations[i],
    ) by {
        lemma_about_alike(a, b, i);
        assert(known::about(a.operations[i], work) == known::about(b.operations[i], work));
    }
    lemma_faults_alike(a.operations, x, b.operations, y);
}

pub proof fn lemma_scope_view_alike(a: Notes, b: Notes, v: WorkView, w: WorkView)
    requires
        framed(a, b),
        same_course(v, w),
    ensures
        a.scope_view_fault(v) == b.scope_view_fault(w),
{
    lemma_framed(a, b);
    let f = Notes::view_before(v);
    let g = Notes::view_before(w);
    assert(forall|n: Number| #[trigger] f(n) == g(n));
    lemma_fences_alike(a, b, v.work.scope, f, g);
}

pub proof fn lemma_scope_manifest_alike(a: Notes, b: Notes, m: Manifest, n: Manifest)
    requires
        framed(a, b),
        m.agrees(&n),
    ensures
        a.scope_manifest_fault(m) == b.scope_manifest_fault(n),
{
    lemma_framed(a, b);
    lemma_manifests_alike(m, n);
    let f = Notes::manifest_before(m);
    let g = Notes::manifest_before(n);
    assert(forall|n: Number| #[trigger] f(n) == g(n));
    lemma_fences_alike(a, b, m.work.scope, f, g);
}

proof fn lemma_work_receipt_alike(a: Notes, b: Notes, work: WorkKey, receipt: OperationReceipt)
    requires
        framed(a, b),
    ensures
        a.work_receipt_fault(work, receipt) == b.work_receipt_fault(work, receipt),
{
    lemma_framed(a, b);
    match receipts::change_time(receipt.body) {
        Some(time) => {
            let f = Notes::change_before(time);
            lemma_fences_alike(a, b, work.scope, f, f);
        },
        None => {},
    }
}

pub proof fn lemma_declaration_alike(
    a: Notes,
    b: Notes,
    scope: ScopeObservation,
    i: Intent,
    j: Intent,
)
    requires
        framed(a, b),
        i.agrees(j),
    ensures
        a.declaration_fault(scope, i) == b.declaration_fault(scope, j),
{
    lemma_framed(a, b);
    match i.mutation {
        Mutation::Declare { entity_ids, .. } => {
            lemma_faults_alike(
                entity_ids@,
                a.entity_check(scope),
                entity_ids@,
                b.entity_check(scope),
            );
        },
        _ => {},
    }
}

pub proof fn lemma_scope_receipt_alike(
    a: Notes,
    b: Notes,
    i: Intent,
    j: Intent,
    receipt: OperationReceipt,
)
    requires
        framed(a, b),
        i.agrees(j),
    ensures
        a.scope_receipt_fault(i, receipt) == b.scope_receipt_fault(j, receipt),
{
    lemma_framed(a, b);
    lemma_intents_alike(i, j);
    match receipts::target_of(i) {
        Some(work) => lemma_work_receipt_alike(a, b, work, receipt),
        None => match i.mutation {
            Mutation::Declare { scope, .. } => {
                let s = a.scope_at(scope);
                if s < a.scopes.len() {
                    match known::declaration_applied(a.scopes[s], receipt) {
                        Ok(observed) => lemma_declaration_alike(a, b, observed, i, j),
                        Err(_) => {},
                    }
                }
            },
            _ => {},
        },
    }
}

/// Declarations are applied alike, and an intent without an answer applies nothing.
pub proof fn lemma_applied_alike(
    a: Notes,
    b: Notes,
    s: Seq<OperationEntry>,
    t: Seq<OperationEntry>,
    scope: ScopeObservation,
)
    requires
        s.len() <= t.len(),
        forall|i: int| 0 <= i < s.len() ==> alike_entries(#[trigger] s[i], t[i]),
        forall|i: int| s.len() <= i < t.len() ==> (#[trigger] t[i]).receipt is None,
    ensures
        a.with_declarations(s, scope) == b.with_declarations(t, scope),
    decreases t.len(),
{
    if t.len() > s.len() {
        assert forall|i: int| s.len() <= i < t.len() - 1 implies (
        #[trigger] t.drop_last()[i]).receipt is None by {
            assert(t.drop_last()[i] == t[i]);
        }
        lemma_applied_alike(a, b, s, t.drop_last(), scope);
        assert(t[t.len() - 1].receipt is None);
    } else if s.len() > 0 {
        assert forall|i: int| 0 <= i < s.len() - 1 implies alike_entries(
            #[trigger] s.drop_last()[i],
            t.drop_last()[i],
        ) by {
            assert(s.drop_last()[i] == s[i]);
        }
        lemma_applied_alike(a, b, s.drop_last(), t.drop_last(), scope);
        assert(alike_entries(s[s.len() - 1], t[s.len() - 1]));
    }
}

pub proof fn lemma_seal_alike(a: Notes, b: Notes, scope: ScopeObservation)
    requires
        framed(a, b),
    ensures
        a.seal_fault(scope) == b.seal_fault(scope),
{
    lemma_framed(a, b);
    if a.bound is Some {
        lemma_identity(a, b);
        let x = a.bound->0.identity;
        let y = b.bound->0.identity;
        Wire::agrees_carries(&x.fields(), &y.fields());
        Wire::agrees_carries(&x.authority, &y.authority);
        Wire::agrees_carries(&x.owner, &y.owner);
    }
}

proof fn lemma_membership_alike(a: Notes, b: Notes, scope: ScopeObservation)
    requires
        alike(a, b),
    ensures
        a.membership_fault(scope) == b.membership_fault(scope),
{
    lemma_alike(a, b);
    lemma_seen(a, b);
    lemma_framed(a, b);
    let x = a.declared_check(scope);
    let y = b.declared_check(scope);
    assert forall|i: int| 0 <= i < a.operations.len() implies x(#[trigger] a.operations[i]) == y(
        b.operations[i],
    ) by {
        lemma_about_alike(a, b, i);
        lemma_declaration_alike(a, b, scope, a.operations[i].intent, b.operations[i].intent);
    }
    lemma_faults_alike(a.operations, x, b.operations, y);
    let x = a.observed_check(scope);
    let y = b.observed_check(scope);
    assert forall|i: int| 0 <= i < a.observations.len() implies x(#[trigger] a.observations[i])
        == y(b.observations[i]) by {
        lemma_observation(a, b, i);
        lemma_views_alike(a.observations[i].view, b.observations[i].view);
    }
    lemma_faults_alike(a.observations, x, b.observations, y);
    let x = a.published_check(scope);
    let y = b.published_check(scope);
    assert forall|i: int| 0 <= i < a.manifests.len() implies x(#[trigger] a.manifests[i]) == y(
        b.manifests[i],
    ) by {
        lemma_manifest(a, b, i);
        lemma_manifests_alike(a.manifests[i], b.manifests[i]);
    }
    lemma_faults_alike(a.manifests, x, b.manifests, y);
}

pub proof fn lemma_refreshed_alike(a: Notes, b: Notes, scope: ScopeObservation)
    requires
        alike(a, b),
    ensures
        a.refreshed(scope) == b.refreshed(scope),
        a.scope_fault(scope) == b.scope_fault(scope),
{
    lemma_alike(a, b);
    lemma_seen(a, b);
    lemma_framed(a, b);
    reveal(Notes::refreshed);
    assert forall|i: int| 0 <= i < a.operations.len() implies alike_entries(
        #[trigger] a.operations[i],
        b.operations[i],
    ) by {
        lemma_about_alike(a, b, i);
    }
    lemma_applied_alike(a, b, a.operations, b.operations, scope);
    let s = a.with_declarations(a.operations, scope)->Ok_0;
    let complete = s.seal is Some && a.scope_members(scope.scope).len() == s.declared.0;
    lemma_seal_alike(a, b, s);
    lemma_membership_alike(a, b, ScopeObservation { membership_verified: complete, ..s });
    lemma_place_alike(a, b, scope);
}

proof fn lemma_relations_alike(a: Notes, b: Notes)
    requires
        alike(a, b),
    ensures
        a.relations_fault() == b.relations_fault(),
{
    lemma_alike(a, b);
    lemma_seen(a, b);
    lemma_framed(a, b);
    reveal(Notes::relations_fault);
    let x = a.place_check();
    let y = b.place_check();
    assert forall|i: int| 0 <= i < a.scopes.len() implies x(#[trigger] a.scopes[i]) == y(
        b.scopes[i],
    ) by {
        lemma_place_alike(a, b, a.scopes[i]);
    }
    lemma_faults_alike(a.scopes, x, b.scopes, y);
    let x = a.view_check();
    let y = b.view_check();
    assert forall|i: int| 0 <= i < a.observations.len() implies x(#[trigger] a.observations[i])
        == y(b.observations[i]) by {
        lemma_observation(a, b, i);
        lemma_views_alike(a.observations[i].view, b.observations[i].view);
        lemma_scope_view_alike(a, b, a.observations[i].view, b.observations[i].view);
    }
    lemma_faults_alike(a.observations, x, b.observations, y);
    let x = a.manifest_check();
    let y = b.manifest_check();
    assert forall|i: int| 0 <= i < a.manifests.len() implies x(#[trigger] a.manifests[i]) == y(
        b.manifests[i],
    ) by {
        lemma_manifest(a, b, i);
        lemma_scope_manifest_alike(a, b, a.manifests[i], b.manifests[i]);
    }
    lemma_faults_alike(a.manifests, x, b.manifests, y);
    let x = a.work_check();
    let y = b.work_check();
    assert forall|i: int| 0 <= i < a.operations.len() implies x(#[trigger] a.operations[i]) == y(
        b.operations[i],
    ) by {
        let e = a.operations[i];
        lemma_about_alike(a, b, i);
        lemma_intents_alike(e.intent, b.operations[i].intent);
        if receipts::target_of(e.intent) is Some && e.receipt is Some {
            lemma_work_receipt_alike(a, b, receipts::target_of(e.intent)->0, e.receipt->0);
        }
    }
    lemma_faults_alike(a.operations, x, b.operations, y);
}

proof fn lemma_manifest_fault_alike(i: Intent, j: Intent, receipt: Outcome, m: Manifest, n: Manifest)
    requires
        i.agrees(j),
        m.agrees(&n),
    ensures
        receipts::manifest_fault(i, receipt, m) == receipts::manifest_fault(j, receipt, n),
{
    lemma_intents_alike(i, j);
    lemma_manifests_alike(m, n);
}

proof fn lemma_view_fault_alike(i: Intent, j: Intent, receipt: Outcome, v: WorkView, w: WorkView)
    requires
        i.agrees(j),
        v.agrees(&w),
    ensures
        receipts::view_fault(i, receipt, v) == receipts::view_fault(j, receipt, w),
{
    lemma_intents_alike(i, j);
    lemma_views_alike(v, w);
    if i.mutation is Admit && v.input is Some {
        lemma_inputs_alike(
            v.input->0,
            w.input->0,
            i.mutation->Admit_0.input,
            j.mutation->Admit_0.input,
        );
    }
}

pub proof fn lemma_fits_alike(m: Manifest, n: Manifest, v: WorkView, w: WorkView)
    requires
        m.agrees(&n),
        v.agrees(&w),
    ensures
        observations::manifest_fits_view(m, v) == observations::manifest_fits_view(n, w),
{
    lemma_manifests_alike(m, n);
    lemma_views_alike(v, w);
    if v.input is Some {
        lemma_inputs_alike(v.input->0, w.input->0, v.input->0, w.input->0);
    }
    if v.manifest is Some {
        lemma_manifests_chain(v.manifest->0, w.manifest->0, m, n);
    }
}

proof fn lemma_manifest_receipts_alike(a: Notes, b: Notes, m: Manifest, n: Manifest)
    requires
        seen(a, b),
        m.agrees(&n),
    ensures
        table::first_fault(a.operations, a.manifest_receipts(m)) == table::first_fault(
            b.operations,
            b.manifest_receipts(n),
        ),
{
    lemma_seen(a, b);
    lemma_framed(a, b);
    lemma_manifests_alike(m, n);
    let x = a.manifest_receipts(m);
    let y = b.manifest_receipts(n);
    assert forall|i: int| 0 <= i < a.operations.len() implies x(#[trigger] a.operations[i]) == y(
        b.operations[i],
    ) by {
        let e = a.operations[i];
        lemma_about_alike(a, b, i);
        assert(known::about(e, m.work) == known::about(b.operations[i], m.work));
        if e.receipt is Some {
            lemma_manifest_fault_alike(e.intent, b.operations[i].intent, e.receipt->0.body, m, n);
        }
    }
    lemma_faults_alike(a.operations, x, b.operations, y);
}

/// A manifest fits what was observed of its work alike, and is issued alike.
proof fn lemma_manifest_place_alike(a: Notes, b: Notes, m: Manifest, n: Manifest)
    requires
        seen(a, b),
        m.agrees(&n),
    ensures
        m.work == n.work,
        m.valid() == n.valid(),
        a.observed_at(m.work) == b.observed_at(m.work),
        a.observed_at(m.work) < a.observations.len() ==> observations::manifest_fits_view(
            m,
            a.observations[a.observed_at(m.work)].view,
        ) == observations::manifest_fits_view(n, b.observations[a.observed_at(m.work)].view),
        a.bound is Some ==> a.issued(m) == b.issued(n),
{
    lemma_seen(a, b);
    lemma_framed(a, b);
    lemma_manifests_alike(m, n);
    lemma_seen_places(a, b, m.work);
    let o = a.observed_at(m.work);
    if o < a.observations.len() {
        lemma_fits_alike(m, n, a.observations[o].view, b.observations[o].view);
    }
    if a.bound is Some {
        lemma_identity(a, b);
    }
}

pub proof fn lemma_manifest_problem_alike(a: Notes, b: Notes, m: Manifest, n: Manifest)
    requires
        seen(a, b),
        m.agrees(&n),
    ensures
        a.manifest_problem(m) == b.manifest_problem(n),
{
    reveal(Notes::manifest_problem);
    lemma_seen(a, b);
    lemma_framed(a, b);
    lemma_manifest_receipts_alike(a, b, m, n);
    lemma_manifest_place_alike(a, b, m, n);
    lemma_scope_manifest_alike(a, b, m, n);
}

pub proof fn lemma_view_problem_alike(a: Notes, b: Notes, p: ObservedWork, q: ObservedWork)
    requires
        alike(a, b),
        p.agrees(&q),
    ensures
        a.view_problem(p) == b.view_problem(q),
{
    lemma_alike(a, b);
    lemma_seen(a, b);
    lemma_framed(a, b);
    reveal(Notes::view_problem);
    let v = p.view;
    let w = q.view;
    lemma_views_alike(v, w);
    lemma_places_alike(a, b, v.work);
    let m = a.manifest_at(v.work);
    if m < a.manifests.len() {
        lemma_fits_alike(a.manifests[m], b.manifests[m], v, w);
    }
    if v.manifest is Some {
        lemma_manifest_problem_alike(a, b, v.manifest->0, w.manifest->0);
    }
    let x = a.view_receipts(v);
    let y = b.view_receipts(w);
    assert forall|i: int| 0 <= i < a.operations.len() implies x(#[trigger] a.operations[i]) == y(
        b.operations[i],
    ) by {
        let e = a.operations[i];
        lemma_about_alike(a, b, i);
        assert(known::about(e, v.work) == known::about(b.operations[i], v.work));
        if e.receipt is Some {
            lemma_view_fault_alike(e.intent, b.operations[i].intent, e.receipt->0.body, v, w);
        }
    }
    lemma_faults_alike(a.operations, x, b.operations, y);
    lemma_scope_view_alike(a, b, v, w);
}

/// Mutations that agree are told apart by nothing.
proof fn lemma_mutations_chain(a: Mutation, b: Mutation, c: Mutation, d: Mutation)
    requires
        a.agrees(b),
        c.agrees(d),
        a is Admit,
        c is Admit,
    ensures
        a.agrees(c) == b.agrees(d),
{
}

proof fn lemma_receipt_problem_alike(
    a: Notes,
    b: Notes,
    i: Intent,
    j: Intent,
    receipt: OperationReceipt,
)
    requires
        alike(a, b),
        i.agrees(j),
    ensures
        a.receipt_problem(i, receipt) == b.receipt_problem(j, receipt),
{
    lemma_alike(a, b);
    lemma_seen(a, b);
    lemma_framed(a, b);
    reveal(Notes::receipt_problem);
    lemma_intents_alike(i, j);
    let work = receipts::target_of(i)->0;
    lemma_places_alike(a, b, work);
    let o = a.observed_at(work);
    let m = a.manifest_at(work);
    if o < a.observations.len() {
        lemma_view_fault_alike(
            i,
            j,
            receipt.body,
            a.observations[o].view,
            b.observations[o].view,
        );
    }
    if m < a.manifests.len() {
        lemma_manifest_fault_alike(i, j, receipt.body, a.manifests[m], b.manifests[m]);
    }
    let x = a.pairs(i, receipt);
    let y = b.pairs(j, receipt);
    assert forall|k: int| 0 <= k < a.operations.len() implies x(#[trigger] a.operations[k]) == y(
        b.operations[k],
    ) by {
        let e = a.operations[k];
        let f = b.operations[k];
        lemma_about_alike(a, b, k);
        lemma_intents_alike(e.intent, f.intent);
        if e.intent.mutation is Admit && i.mutation is Admit {
            lemma_mutations_chain(e.intent.mutation, f.intent.mutation, i.mutation, j.mutation);
        }
    }
    lemma_faults_alike(a.operations, x, b.operations, y);
    lemma_scope_receipt_alike(a, b, i, j, receipt);
}

/// A receipt answers intents that agree alike.
proof fn lemma_answers_alike(
    i: Intent,
    x: SessionIdentity,
    j: Intent,
    y: SessionIdentity,
    receipt: OperationReceipt,
)
    requires
        i.agrees(j),
        x.agrees(y),
    ensures
        storage::receipt_fault(i, x, receipt) == storage::receipt_fault(j, y, receipt),
{
    lemma_intents_alike(i, j);
    Wire::agrees_carries(&x.fields(), &y.fields());
    Wire::agrees_carries(&x.authority, &y.authority);
    Wire::agrees_carries(&x.owner, &y.owner);
    assert(i.operation.agrees(&j.operation));
    Wire::agrees_carries(&i.operation, &j.operation);
    match (i.mutation, j.mutation) {
        (
            Mutation::Declare { scope: s, entity_ids: p, seal: f },
            Mutation::Declare { scope: t, entity_ids: q, seal: g },
        ) => {
            assert(p@ == q@);
        },
        _ => {},
    }
}

pub proof fn lemma_operations_alike(a: Notes, b: Notes)
    requires
        alike(a, b),
        a.bound is Some,
    ensures
        table::first_fault(a.operations, a.entry_check()) == table::first_fault(
            b.operations,
            b.entry_check(),
        ),
{
    lemma_alike(a, b);
    lemma_seen(a, b);
    lemma_framed(a, b);
    lemma_identity(a, b);
    let x = a.entry_check();
    let y = b.entry_check();
    assert forall|i: int| 0 <= i < a.operations.len() implies x(#[trigger] a.operations[i]) == y(
        b.operations[i],
    ) by {
        let e = a.operations[i];
        let f = b.operations[i];
        lemma_about_alike(a, b, i);
        if e.receipt is Some {
            lemma_answers_alike(
                e.intent,
                a.bound->0.identity,
                f.intent,
                b.bound->0.identity,
                e.receipt->0,
            );
            lemma_receipt_problem_alike(a, b, e.intent, f.intent, e.receipt->0);
        }
    }
    lemma_faults_alike(a.operations, x, b.operations, y);
}

proof fn lemma_stands_alike(a: Notes, b: Notes, i: int)
    requires
        alike(a, b),
        0 <= i < a.observations.len(),
    ensures
        a.stands()(a.observations[i]) == b.stands()(b.observations[i]),
{
    lemma_alike(a, b);
    lemma_seen(a, b);
    lemma_framed(a, b);
    lemma_observation(a, b, i);
    let p = a.observations[i];
    let q = b.observations[i];
    lemma_view_problem_alike(a, b, p, q);
    lemma_views_alike(p.view, q.view);
    lemma_places_alike(a, b, p.view.work);
    let m = a.manifest_at(p.view.work);
    if m < a.manifests.len() && p.view.manifest is Some {
        lemma_manifests_chain(
            a.manifests[m],
            b.manifests[m],
            p.view.manifest->0,
            q.view.manifest->0,
        );
    }
}

pub proof fn lemma_observations_alike(a: Notes, b: Notes)
    requires
        alike(a, b),
    ensures
        a.observations_fault() == b.observations_fault(),
{
    lemma_alike(a, b);
    lemma_seen(a, b);
    lemma_framed(a, b);
    let x = a.stands();
    let y = b.stands();
    assert forall|i: int| 0 <= i < a.observations.len() implies x(#[trigger] a.observations[i])
        == y(b.observations[i]) by {
        lemma_stands_alike(a, b, i);
    }
    lemma_faults_alike(a.observations, x, b.observations, y);
    let x = a.published();
    let y = b.published();
    assert forall|i: int| 0 <= i < a.manifests.len() implies x(#[trigger] a.manifests[i]) == y(
        b.manifests[i],
    ) by {
        lemma_manifest(a, b, i);
        lemma_manifest_problem_alike(a, b, a.manifests[i], b.manifests[i]);
    }
    lemma_faults_alike(a.manifests, x, b.manifests, y);
}

pub proof fn lemma_references_alike(a: Notes, b: Notes)
    requires
        alike(a, b),
        a.references == b.references,
    ensures
        a.references_fault() == b.references_fault(),
{
    reveal(Notes::reference_fault);
    lemma_alike(a, b);
    lemma_seen(a, b);
    lemma_framed(a, b);
    let x = a.reference_check();
    let y = b.reference_check();
    assert forall|i: int| 0 <= i < a.references.len() implies x(#[trigger] a.references[i]) == y(
        b.references[i],
    ) by {
        let e = a.references[i];
        lemma_places_alike(a, b, e.work);
        let m = a.manifest_at(e.work);
        if m < a.manifests.len() {
            lemma_manifests_alike(a.manifests[m], b.manifests[m]);
            lemma_manifest_problem_alike(a, b, a.manifests[m], b.manifests[m]);
        }
    }
    lemma_faults_alike(a.references, x, b.references, y);
}

/// A member that was observed closes alike.
proof fn lemma_leaf_alike(a: Notes, b: Notes, m: ScopeMember)
    requires
        alike(a, b),
        a.coverage == b.coverage,
        a.observed_at(m.work) < a.observations.len(),
    ensures
        same_course(a.view_of(m), b.view_of(m)),
        a.view_of(m).manifest is Some == b.view_of(m).manifest is Some,
        a.view_of(m).manifest is Some ==> a.view_of(m).manifest->0.valid() == b.view_of(
            m,
        ).manifest->0.valid() && a.view_of(m).manifest->0.wire() == b.view_of(m).manifest->0.wire(),
        a.closing_leaf(m) == b.closing_leaf(m),
{
    lemma_alike(a, b);
    lemma_seen(a, b);
    lemma_framed(a, b);
    lemma_places_alike(a, b, m.work);
    let v = a.view_of(m);
    let w = b.view_of(m);
    lemma_views_alike(v, w);
    if v.manifest is Some {
        lemma_manifests_alike(v.manifest->0, w.manifest->0);
    }
}

proof fn lemma_open_alike(
    a: Notes,
    b: Notes,
    scope: ScopeObservation,
    summary: ScopeSummary,
    m: ScopeMember,
)
    requires
        alike(a, b),
        a.coverage == b.coverage,
    ensures
        a.member_open(scope, summary, m) == b.member_open(scope, summary, m),
        a.member_open(scope, summary, m) is None ==> a.observed_at(m.work) < a.observations.len(),
{
    lemma_alike(a, b);
    lemma_seen(a, b);
    lemma_framed(a, b);
    lemma_member_alike(a, b, m);
    lemma_places_alike(a, b, m.work);
    let o = a.observed_at(m.work);
    if o < a.observations.len() {
        lemma_observation(a, b, o);
        lemma_view_problem_alike(a, b, a.observations[o], b.observations[o]);
        lemma_leaf_alike(a, b, m);
    }
}

proof fn lemma_tally_alike(a: Notes, b: Notes, rows: Seq<ScopeMember>)
    requires
        alike(a, b),
        a.coverage == b.coverage,
        forall|i: int|
            0 <= i < rows.len() ==> a.observed_at((#[trigger] rows[i]).work)
                < a.observations.len(),
    ensures
        a.tally(rows) == b.tally(rows),
        a.closing_leaves(rows) == b.closing_leaves(rows),
    decreases rows.len(),
{
    if rows.len() > 0 {
        assert forall|i: int| 0 <= i < rows.len() - 1 implies a.observed_at(
            (#[trigger] rows.drop_last()[i]).work,
        ) < a.observations.len() by {
            assert(rows.drop_last()[i] == rows[i]);
        }
        lemma_tally_alike(a, b, rows.drop_last());
        assert(a.observed_at(rows[rows.len() - 1].work) < a.observations.len());
        lemma_leaf_alike(a, b, rows.last());
    }
}

proof fn lemma_coverage_alike(a: Notes, b: Notes, summary: ScopeSummary)
    requires
        alike(a, b),
        a.coverage == b.coverage,
    ensures
        a.coverage_fault(summary) == b.coverage_fault(summary),
{
    reveal(Notes::coverage_fault);
    lemma_alike(a, b);
    lemma_seen(a, b);
    lemma_framed(a, b);
    let scope = a.scopes[a.scope_at(summary.scope)];
    let rows = a.scope_members(summary.scope);
    lemma_refreshed_alike(a, b, scope);
    let x = a.closing_check(scope, summary);
    let y = b.closing_check(scope, summary);
    assert forall|i: int| 0 <= i < rows.len() implies x(#[trigger] rows[i]) == y(rows[i]) by {
        lemma_open_alike(a, b, scope, summary, rows[i]);
    }
    lemma_faults_alike(rows, x, rows, y);
    if table::first_fault(rows, x) is None {
        table::lemma_first_fault_none(rows, x);
        assert forall|i: int| 0 <= i < rows.len() implies a.observed_at((#[trigger] rows[i]).work)
            < a.observations.len() by {
            assert(x(rows[i]) is None);
            lemma_open_alike(a, b, scope, summary, rows[i]);
        }
        lemma_tally_alike(a, b, rows);
    }
}

pub proof fn lemma_scopes_alike(a: Notes, b: Notes)
    requires
        alike(a, b),
        a.coverage == b.coverage,
    ensures
        a.scopes_fault() == b.scopes_fault(),
{
    lemma_alike(a, b);
    lemma_seen(a, b);
    lemma_framed(a, b);
    let rows = a.scopes.reverse();
    let x = a.scope_stands();
    let y = b.scope_stands();
    assert forall|i: int| 0 <= i < rows.len() implies x(#[trigger] rows[i]) == y(rows[i]) by {
        let s = rows[i];
        lemma_refreshed_alike(a, b, s);
        let c = a.coverage_at(s.scope);
        if c < a.coverage.len() {
            lemma_coverage_alike(a, b, a.coverage[c]);
        }
    }
    lemma_faults_alike(rows, x, rows, y);
    let x = a.member_stands();
    let y = b.member_stands();
    assert forall|i: int| 0 <= i < a.members.len() implies x(#[trigger] a.members[i]) == y(
        b.members[i],
    ) by {
        lemma_member_alike(a, b, a.members[i]);
    }
    lemma_faults_alike(a.members, x, b.members, y);
    lemma_relations_alike(a, b);
}

/// Notes that say the same are audited alike, whatever intents are without an answer in the second.
pub proof fn law_alike_notes_are_audited_alike(a: Notes, b: Notes)
    requires
        alike(a, b),
        a.references == b.references,
        a.coverage == b.coverage,
        a.bound is None ==> b.operations.len() == 0,
        b.operations.len() <= b.limits.operations.0,
    ensures
        a.audit_fault() == b.audit_fault(),
{
    reveal(Notes::audit_fault);
    lemma_alike(a, b);
    lemma_seen(a, b);
    lemma_framed(a, b);
    if a.bound is Some {
        lemma_operations_alike(a, b);
    }
    lemma_observations_alike(a, b);
    lemma_references_alike(a, b);
    lemma_scopes_alike(a, b);
}

pub proof fn lemma_intent_reflexive(intent: Intent)
    ensures
        intent.agrees(intent),
{
    if intent.mutation is Admit {
        intent.mutation->Admit_0.agrees_reflexive();
    }
}

} // verus!
