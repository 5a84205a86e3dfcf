//! What a fence on a scope means for everything below it, and where a scope may stand, as a client holds
//! it against what it is told.

use super::super::authority::store::Fault;
use super::super::authority::table;
use super::super::error::ErrorCode;
use super::super::messages::{Control, Scope};
use super::super::numbers::{Id, Number, PageLimit, State};
use super::super::records::{ChildScope, Manifest, OperationReceipt, Outcome, WorkKey, WorkView};
use super::super::wire::Wire;
use super::journal::{self, Notes, OperationEntry};
use super::known;
use super::pages::{self, PageFacts};
use super::receipts;
use super::records::{ScopeMember, ScopeObservation};
use vstd::prelude::*;

verus! {

/// The scope stands in the notes.
pub open spec fn noted(t: Notes, k: int, scope: Number) -> bool {
    0 <= k < t.scopes.len() && t.scopes[k].scope == scope
}

proof fn lemma_noted(t: Notes, k: int, scope: Number)
    requires
        t.ordered(),
        noted(t, k, scope),
    ensures
        t.scope_at(scope) == k,
{
    let p = journal::is_scope(scope);
    assert forall|j: int| 0 <= j < k implies !p(#[trigger] t.scopes[j]) by {
        assert(t.scopes[j].scope.0 < t.scopes[k].scope.0);
    }
    table::lemma_index_unique(t.scopes, p, k);
}

/// Everything is below the root, and every scope is below itself. A scope that is known is below
/// another exactly where its parent's scope is; one without a parent, and one that is not known, is
/// below no other.
pub proof fn law_scopes_are_nested(t: Notes, k: int, scope: Number, ancestor: Number)
    requires
        t.ordered(),
    ensures
        t.descends(scope, Number(0)),
        t.descends(scope, scope),
        ancestor.0 != 0 && scope != ancestor && noted(t, k, scope) ==> (t.descends(scope, ancestor)
            <==> (t.scopes[k].parent matches Some(p) && p.scope.0 < scope.0 && t.descends(
            p.scope,
            ancestor,
        ))),
        ancestor.0 != 0 && scope != ancestor && (forall|j: int|
            0 <= j < t.scopes.len() ==> (#[trigger] t.scopes[j]).scope != scope) ==> !t.descends(
            scope,
            ancestor,
        ),
{
    let p = journal::is_scope(scope);
    table::lemma_index_where(t.scopes, p);
    let i = t.scope_at(scope);
    if i < t.scopes.len() {
        assert(p(t.scopes[i]));
        assert(t.scopes[i].scope == scope);
    }
    if noted(t, k, scope) {
        lemma_noted(t, k, scope);
    }
    assert(Number(0) == Number(0));
}

/// The entry is a cancellation of a scope that was answered.
pub open spec fn fences(e: OperationEntry, ancestor: Number, at: Number) -> bool {
    &&& e.intent.mutation is ScopeCancel
    &&& e.receipt matches Some(r) && r.body == (Outcome::ScopeCancelled {
        scope: ancestor,
        accepted_at: at,
    })
}

/// Cancellations of scopes were answered as such.
pub open spec fn fences_answered(t: Notes) -> bool {
    forall|i: int|
        0 <= i < t.operations.len() && (#[trigger] t.operations[i]).intent.mutation is ScopeCancel
            && t.operations[i].receipt is Some ==> t.operations[i].receipt->0.body is ScopeCancelled
}

proof fn lemma_fences(t: Notes, scope: Number, allowed: spec_fn(Number) -> bool)
    requires
        fences_answered(t),
    ensures
        t.fences_fault(scope, allowed) is None <==> forall|i: int, ancestor: Number, at: Number|
            0 <= i < t.operations.len() && #[trigger] fences(t.operations[i], ancestor, at)
                && t.descends(scope, ancestor) ==> allowed(at),
{
    let f = t.fence_check(scope, allowed);
    table::lemma_first_fault_none(t.operations, f);
    if t.fences_fault(scope, allowed) is None {
        assert forall|i: int, ancestor: Number, at: Number|
            0 <= i < t.operations.len() && #[trigger] fences(t.operations[i], ancestor, at)
                && t.descends(scope, ancestor) implies allowed(at) by {
            assert(f(t.operations[i]) is None);
        }
    }
    if forall|i: int, ancestor: Number, at: Number|
        0 <= i < t.operations.len() && #[trigger] fences(t.operations[i], ancestor, at)
            && t.descends(scope, ancestor) ==> allowed(at) {
        assert forall|i: int| 0 <= i < t.operations.len() implies f(#[trigger] t.operations[i]) is None by {
            let e = t.operations[i];
            if e.intent.mutation is ScopeCancel && e.receipt is Some {
                let ancestor = e.receipt->0.body->ScopeCancelled_scope;
                let at = e.receipt->0.body->ScopeCancelled_accepted_at;
                assert(fences(t.operations[i], ancestor, at));
            }
        }
    }
}

/// Below a scope that was cancelled no work is admitted later, and none succeeds or fails later. A view
/// contradicts what is known of fences exactly where it says so.
pub proof fn law_nothing_goes_on_below_a_fence(t: Notes, view: WorkView)
    requires
        fences_answered(t),
    ensures
        t.fences_fault(view.work.scope, Notes::view_before(view)) is None <==> forall|
            i: int,
            ancestor: Number,
            at: Number,
        |
            0 <= i < t.operations.len() && #[trigger] fences(t.operations[i], ancestor, at)
                && t.descends(view.work.scope, ancestor) ==> {
                &&& view.admitted_at matches Some(admitted) ==> admitted.0 <= at.0
                &&& view.state.0 == State::SUCCEEDED || view.state.0 == State::FAILED ==> (
                view.terminal_at matches Some(end) && end.0 <= at.0)
            },
{
    lemma_fences(t, view.work.scope, Notes::view_before(view));
}

/// Below a scope that was cancelled nothing is published later.
pub proof fn law_nothing_is_published_below_a_fence(t: Notes, m: Manifest)
    requires
        fences_answered(t),
    ensures
        t.fences_fault(m.work.scope, Notes::manifest_before(m)) is None <==> forall|
            i: int,
            ancestor: Number,
            at: Number,
        |
            0 <= i < t.operations.len() && #[trigger] fences(t.operations[i], ancestor, at)
                && t.descends(m.work.scope, ancestor) ==> m.committed_at.0 <= at.0,
{
    lemma_fences(t, m.work.scope, Notes::manifest_before(m));
}

/// What a client believes of work in a scope that it knows: the work has the scope's producer, and where
/// the membership was verified it is a member.
pub proof fn law_work_is_of_its_scope(t: Notes, k: int, work: WorkKey)
    requires
        t.ordered(),
    ensures
        noted(t, k, work.scope) && !t.scopes[k].membership_verified ==> (t.may_be_member(work) <==> (
        t.scopes[k].producer == work.producer)),
        noted(t, k, work.scope) && t.scopes[k].membership_verified && t.may_be_member(work) ==> {
            &&& t.scopes[k].producer == work.producer
            &&& exists|j: int| 0 <= j < t.members.len() && (#[trigger] t.members[j]).work == work
        },
        (forall|j: int| 0 <= j < t.scopes.len() ==> (#[trigger] t.scopes[j]).scope != work.scope)
            ==> t.may_be_member(work),
{
    let p = journal::is_scope(work.scope);
    table::lemma_index_where(t.scopes, p);
    let i = t.scope_at(work.scope);
    if i < t.scopes.len() {
        assert(p(t.scopes[i]));
    }
    if noted(t, k, work.scope) {
        lemma_noted(t, k, work.scope);
    }
    let q = journal::is_member(work.scope, work.entity);
    table::lemma_index_where(t.members, q);
    let m = t.member_at(work.scope, work.entity);
    if m < t.members.len() {
        assert(q(t.members[m]));
    }
}

/// Work opens one child scope: the child that it is said to have opened has the number and the producer
/// of every scope that is known below it, and no scope of another parent has its number.
pub proof fn law_work_opens_one_child(
    t: Notes,
    i: int,
    work: WorkKey,
    child: Option<ChildScope>,
)
    requires
        t.ordered(),
        0 <= i < t.scopes.len(),
        t.child_fits(work, child),
    ensures
        t.scopes[i].parent == Some(work) && (forall|j: int|
            0 <= j < i ==> (#[trigger] t.scopes[j]).parent != Some(work)) ==> (
        child matches Some(c) && c.scope.0 == t.scopes[i].scope.0 && c.producer
            == t.scopes[i].producer),
        child matches Some(c) ==> (c.scope.0 == t.scopes[i].scope.0 ==> t.scopes[i].parent == Some(
            work,
        ) && c.producer == t.scopes[i].producer),
{
    if t.scopes[i].parent == Some(work) && (forall|j: int|
        0 <= j < i ==> (#[trigger] t.scopes[j]).parent != Some(work)) {
        let p = known::has_parent(work);
        assert forall|j: int| 0 <= j < i implies !p(#[trigger] t.scopes[j]) by {}
        table::lemma_index_unique(t.scopes, p, i);
    }
    if child is Some && child->0.scope.0 == t.scopes[i].scope.0 {
        lemma_noted(t, i, Number(child->0.scope.0));
    }
}

/// A view is held against the membership of its scope: against the member of its number, against the
/// end that was reported of it, against the child it opened, and against the fences above it.
pub proof fn law_view_is_held_against_its_scope(t: Notes, j: int, view: WorkView)
    requires
        0 <= j < t.members.len(),
        t.members[j].work.scope == view.work.scope,
        t.members[j].work.entity == view.work.entity,
        forall|i: int|
            0 <= i < j ==> !((#[trigger] t.members[i]).work.scope == view.work.scope
                && t.members[i].work.entity == view.work.entity),
        t.scope_view_fault(view) is None,
    ensures
        t.members[j].work == view.work,
        t.members[j].terminal matches Some(end) ==> {
            &&& view.state.terminal() ==> view.state == end
            &&& view.state.0 == State::CANCELLING ==> end.0 == State::CANCELLED || end.0
                == State::SKIPPED
        },
        t.may_be_member(view.work),
        view.admitted_at is Some || view.state.terminal() ==> t.child_fits(view.work, view.child),
        t.fences_fault(view.work.scope, Notes::view_before(view)) is None,
{
    lemma_member(t, j, view.work);
}

proof fn lemma_member(t: Notes, j: int, work: WorkKey)
    requires
        0 <= j < t.members.len(),
        t.members[j].work.scope == work.scope,
        t.members[j].work.entity == work.entity,
        forall|i: int|
            0 <= i < j ==> !((#[trigger] t.members[i]).work.scope == work.scope
                && t.members[i].work.entity == work.entity),
    ensures
        t.member_at(work.scope, work.entity) == j,
{
    let q = journal::is_member(work.scope, work.entity);
    assert forall|i: int| 0 <= i < j implies !q(#[trigger] t.members[i]) by {}
    table::lemma_index_unique(t.members, q, j);
}

/// A manifest is one of work that succeeded: a member that was reported to have ended otherwise has
/// published nothing, nor has one below a fence that was set before.
pub proof fn law_manifest_is_held_against_its_scope(t: Notes, j: int, m: Manifest)
    requires
        0 <= j < t.members.len(),
        t.members[j].work.scope == m.work.scope,
        t.members[j].work.entity == m.work.entity,
        forall|i: int|
            0 <= i < j ==> !((#[trigger] t.members[i]).work.scope == m.work.scope
                && t.members[i].work.entity == m.work.entity),
        t.scope_manifest_fault(m) is None,
    ensures
        t.members[j].work == m.work,
        t.members[j].terminal matches Some(end) ==> end.0 == State::SUCCEEDED,
        t.may_be_member(m.work),
        t.fences_fault(m.work.scope, Notes::manifest_before(m)) is None,
{
    lemma_member(t, j, m.work);
}

/// A receipt changed work in time: whatever it admitted, retried or fenced came before every fence that
/// lies over the work. One that came too late changed nothing and contradicts no fence.
pub proof fn law_changes_come_before_fences(
    t: Notes,
    work: WorkKey,
    receipt: OperationReceipt,
    i: int,
    ancestor: Number,
    at: Number,
)
    requires
        fences_answered(t),
        t.work_receipt_fault(work, receipt) is None,
        0 <= i < t.operations.len(),
        fences(t.operations[i], ancestor, at),
        t.descends(work.scope, ancestor),
    ensures
        match receipt.body {
            Outcome::Admitted { admitted_at, .. } => admitted_at.0 <= at.0,
            Outcome::Retried { accepted_at, .. } => accepted_at.0 <= at.0,
            Outcome::Cancelled { accepted_at, disposition, .. } => disposition.0 == 0 ==> accepted_at.0
                <= at.0,
            Outcome::Skipped { accepted_at, disposition, .. } => disposition.0 == 0 ==> accepted_at.0
                <= at.0,
            _ => true,
        },
        t.may_be_member(work),
        receipt.body matches Outcome::Admitted { child, .. } ==> t.child_fits(work, child),
{
    match receipts::change_time(receipt.body) {
        Some(time) => {
            lemma_fences(t, work.scope, Notes::change_before(time));
            assert(Notes::change_before(time)(at));
        },
        None => {},
    }
}

/// A scope stands where it says: the root has no parent to be held against; every other scope has one
/// that may be a member of its own scope, is the only one known below that parent, and is the child
/// that the parent was seen to open.
pub proof fn law_scope_stands_below_its_parent(t: Notes, scope: ScopeObservation, i: int, o: int)
    requires
        t.place_fault(scope) is None,
    ensures
        scope.valid(),
        scope.declared.0 <= t.limits.observations.0,
        scope.parent matches Some(work) ==> {
            &&& t.may_be_member(work)
            &&& work.scope.0 == 0 ==> work.producer.0 == 0
            &&& 0 <= i < t.scopes.len() && t.scopes[i].parent == Some(work) && (forall|j: int|
                0 <= j < i ==> (#[trigger] t.scopes[j]).parent != Some(work)) ==> t.scopes[i].scope
                == scope.scope
            &&& 0 <= o < t.observations.len() && t.observations[o].view.work == work && (forall|j:
                int|
                0 <= j < o ==> (#[trigger] t.observations[j]).view.work != work) && (
            t.observations[o].view.admitted_at is Some || t.observations[o].view.state.terminal())
                ==> (t.observations[o].view.child matches Some(c) && c.scope.0 == scope.scope.0
                && c.producer == scope.producer)
            &&& forall|n: int|
                0 <= n < t.operations.len() && known::about(#[trigger] t.operations[n], work) ==> (
                t.operations[n].receipt->0.body matches Outcome::Admitted { child, .. } ==> (
                child matches Some(c) && c.scope.0 == scope.scope.0 && c.producer
                    == scope.producer))
        },
{
    if scope.parent is Some {
        let work = scope.parent->0;
        if 0 <= i < t.scopes.len() && t.scopes[i].parent == Some(work) && (forall|j: int|
            0 <= j < i ==> (#[trigger] t.scopes[j]).parent != Some(work)) {
            let p = known::has_parent(work);
            assert forall|j: int| 0 <= j < i implies !p(#[trigger] t.scopes[j]) by {}
            table::lemma_index_unique(t.scopes, p, i);
        }
        if 0 <= o < t.observations.len() && t.observations[o].view.work == work && (forall|j: int|
            0 <= j < o ==> (#[trigger] t.observations[j]).view.work != work) {
            let p = journal::is_observed(work);
            assert forall|j: int| 0 <= j < o implies !p(#[trigger] t.observations[j]) by {}
            table::lemma_index_unique(t.observations, p, o);
        }
        let f = t.child_check(scope, work);
        table::lemma_first_fault_none(t.operations, f);
        assert forall|n: int|
            0 <= n < t.operations.len() && known::about(#[trigger] t.operations[n], work) implies (
        t.operations[n].receipt->0.body matches Outcome::Admitted { child, .. } ==> (
        child matches Some(c) && c.scope.0 == scope.scope.0 && c.producer == scope.producer)) by {
            assert(f(t.operations[n]) is None);
        }
    }
}

/// A root that is not declared beyond what the journal holds stands wherever it is reported.
pub proof fn law_root_stands_anywhere(t: Notes, scope: ScopeObservation)
    requires
        scope.valid(),
        scope.parent is None,
    ensures
        t.place_fault(scope) is None <==> scope.declared.0 <= t.limits.observations.0,
        t.place_fault(scope) is Some ==> t.place_fault(scope) == Some(
            Fault::Refused(ErrorCode::LimitExceeded),
        ),
{
}

/// The last entity that a page speaks of.
pub open spec fn last_told(p: PageFacts) -> u64 {
    if p.entries.len() > 0 {
        p.entries[p.entries.len() - 1].entity.0
    } else {
        p.after.0
    }
}

/// One of the entries is of the entity.
pub open spec fn tells_of(p: PageFacts, entity: Id) -> bool {
    exists|k: int| 0 <= k < p.entries.len() && (#[trigger] p.entries[k]).entity == entity
}

/// A page is looked into where it fits what is known: its scope, together with what is known of it, can
/// stand; it leaves out no known member between its first and its last entry; and where it is the last
/// one, and no older than what is known, no known member is behind it.
pub proof fn law_page_leaves_nothing_out(t: Notes, p: PageFacts, k: int)
    requires
        t.ordered(),
        noted(t, k, p.scope),
    ensures
        t.opening_fault(p) is None <==> {
            let merged = known::merged(t.scopes[k], p.incoming());
            &&& merged is Some
            &&& merged->0.declared.0 <= t.limits.observations.0
            &&& t.place_fault(merged->0) is None
            &&& t.bound is Some
            &&& p.entries.len() > 0 ==> forall|i: int|
                0 <= i < t.members.len() && (#[trigger] t.members[i]).work.scope == p.scope
                    && p.after.0 < t.members[i].work.entity.0 <= last_told(p) ==> tells_of(
                    p,
                    t.members[i].work.entity,
                )
            &&& !p.more && p.declared.0 >= t.scopes[k].declared.0 ==> forall|i: int|
                0 <= i < t.members.len() && (#[trigger] t.members[i]).work.scope == p.scope
                    ==> t.members[i].work.entity.0 <= last_told(p)
        },
{
    lemma_noted(t, k, p.scope);
    assert(p.end() == last_told(p));
    assert forall|entity: Id| #[trigger] tells_of(p, entity) == pages::listed(p.entries, entity) by {}
}

/// The page of a scope that is not known yet is looked into where the scope can stand, and leaves
/// out no known member either.
pub proof fn law_first_page_opens_the_scope(t: Notes, p: PageFacts)
    requires
        forall|j: int| 0 <= j < t.scopes.len() ==> (#[trigger] t.scopes[j]).scope != p.scope,
        t.opening_fault(p) is None,
    ensures
        p.declared.0 <= t.limits.observations.0,
        t.place_fault(p.incoming()) is None,
        t.bound is Some,
        forall|i: int|
            0 <= i < t.members.len() && (#[trigger] t.members[i]).work.scope == p.scope && p.after.0
                < t.members[i].work.entity.0 && (!p.more || t.members[i].work.entity.0 <= last_told(
                p,
            )) && p.entries.len() > 0 ==> tells_of(p, t.members[i].work.entity),
        !p.more && p.entries.len() == 0 ==> forall|i: int|
            0 <= i < t.members.len() && (#[trigger] t.members[i]).work.scope == p.scope
                ==> t.members[i].work.entity.0 <= p.after.0,
{
    let q = journal::is_scope(p.scope);
    table::lemma_index_where(t.scopes, q);
    let s = t.scope_at(p.scope);
    if s < t.scopes.len() {
        assert(q(t.scopes[s]));
    }
    assert(p.end() == last_told(p));
    assert forall|entity: Id| #[trigger] tells_of(p, entity) == pages::listed(p.entries, entity) by {}
}

/// A page answers its request where it repeats its number and its scope, has no more entries than were
/// asked for, all of them behind the entity that was named, and where it is the whole scope says so.
pub proof fn law_page_answers_its_request(
    number: Id,
    scope: Number,
    behind: Number,
    limit: PageLimit,
    response: Control,
)
    ensures
        pages::page_correlates(
            Control::Scope(Scope::Page { request: number, scope, after_entity: behind, limit }),
            response,
        ) <==> (response matches Control::Scope(page) && page is PageResponse && {
            let entries = page->PageResponse_entries@;
            &&& page->PageResponse_request == number
            &&& page->PageResponse_scope == scope
            &&& entries.len() <= limit.0
            &&& forall|i: int| 0 <= i < entries.len() ==> behind.0 < (#[trigger] entries[i]).entity.0
            &&& behind.0 == 0 && !page->PageResponse_more ==> entries.len()
                == page->PageResponse_declared.0
        }),
{
}

/// A page that is taken was looked into, each of its entries was, and the members that are then known up
/// to where it ends are no more than it says were declared.
pub proof fn law_taken_page_counts_its_members(t: Notes, p: PageFacts)
    requires
        t.page_taken(p) is Ok,
    ensures
        t.opening_fault(p) is None,
        t.page_saved(p, p.entries.len() as int) matches Ok(saved) && {
            &&& p.entries.len() > 0 ==> table::rows_where(
                saved.members,
                |m: ScopeMember| m.work.scope == p.scope && m.work.entity.0 <= last_told(p),
            ).len() <= p.declared.0
            &&& (t.page_taken(p)->Ok_0).0.members == saved.members
            &&& (t.page_taken(p)->Ok_0).0.operations == saved.operations
        },
        (t.page_taken(p)->Ok_0).0.relations_fault() is None,
{
    reveal(Notes::page_taken);
    let f = |m: ScopeMember| m.work.scope == p.scope && m.work.entity.0 <= last_told(p);
    let g = pages::within(p.scope, p.end());
    assert forall|m: ScopeMember| #[trigger] f(m) == g(m) by {}
    assert(f =~= g);
}

} // verus!
