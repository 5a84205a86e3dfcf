//! What a client may believe together. What the authority does one thing after the other is never taken
//! for a contradiction, and what it never does is: work does not go back, ends are final, and a receipt
//! binds what is shown later.

use super::super::authority::acceptance;
use super::super::authority::conduct;
use super::super::authority::exchange;
use super::super::authority::release;
use super::super::authority::store::{ClockReading, Tables, WorkRow};
use super::super::authority::table;
use super::super::commitments::{self, Mutation, SessionIdentity, StatusLeaf};
use super::super::error::MAX_CONTROL_LIMIT;
use super::super::labels::{self, Digest, OperationId};
use super::super::messages::{Control, Scope};
use super::super::numbers::{Duration, Id, Number, PageLimit, State};
use super::super::records::{
    Counts, Manifest, OperationReceipt, Outcome, ScopeSummary, WorkKey, WorkView,
};
use super::super::wire::Wire;
use super::closure;
use super::journal::{self, Notes};
use super::known;
use super::observations;
use super::pages;
use super::receipts;
use super::records::{ObservedWork, ScopeMember, ScopeObservation};
use super::storage::Intent;
use vstd::prelude::*;

verus! {

/// The view shows one of the four ends.
pub open spec fn shows_end(view: WorkView) -> bool {
    ||| view.state.0 == State::SUCCEEDED
    ||| view.state.0 == State::FAILED
    ||| view.state.0 == State::CANCELLED
    ||| view.state.0 == State::SKIPPED
}

/// What reconciliation makes of work is taken for what comes after it.
pub proof fn law_settled_view_may_follow(t: Tables, j: int, now: Number, after: Tables, settled: bool)
    requires
        t.well_formed(),
        0 <= j < t.work.len(),
        t.settle_step(j, now, after, settled),
        t.work[j].fence is None ==> t.work[j].view.state.0 != State::CANCELLING,
    ensures
        observations::may_precede(t.work[j].view, after.work[j].view),
{
    super::super::authority::accounts::lemma_profiled(t, j);
    t.work[j].view.agrees_reflexive();
    t.work[j].view.input.agrees_reflexive();
}

/// What a fence makes of work is taken for what comes after it.
pub proof fn law_fenced_view_may_follow(
    t: Tables,
    row: WorkRow,
    skip: bool,
    operation: OperationId,
    at: Number,
    retention: Duration,
)
    requires
        t.fence_work(row.generation, row, skip, operation, at, retention) is Ok,
        row.fence is None ==> row.view.state.0 != State::CANCELLING,
    ensures
        observations::may_precede(
            row.view,
            t.fence_work(row.generation, row, skip, operation, at, retention)->Ok_0.view,
        ),
{
    row.view.agrees_reflexive();
    row.view.input.agrees_reflexive();
}

/// Work that is shown later is the same work and in no earlier attempt. An end stays what it was, with
/// its times and what was published; work that is being cancelled ends as cancelled or skipped, in the
/// attempt it was in; a failed attempt goes on only in a later one; and what was admitted stays as
/// it was admitted.
pub proof fn law_work_never_goes_back(before: WorkView, after: WorkView)
    requires
        observations::may_precede(before, after),
    ensures
        after.work == before.work,
        before.attempt.0 <= after.attempt.0,
        shows_end(before) ==> {
            &&& after.state == before.state
            &&& after.attempt == before.attempt
            &&& after.terminal_at == before.terminal_at
            &&& after.receipt_until == before.receipt_until
            &&& after.output_until == before.output_until
            &&& after.manifest is Some == before.manifest is Some
        },
        before.state.0 == State::CANCELLING ==> {
            &&& after.state.0 == State::CANCELLING || after.state.0 == State::CANCELLED
                || after.state.0 == State::SKIPPED
            &&& after.attempt == before.attempt
            &&& after.admitted_at == before.admitted_at
        },
        before.state.0 == State::AWAITING_RETRY && (after.state.0 == State::ACTIVE || after.state.0
            == State::WAITING_CHILDREN || after.state.0 == State::SUCCEEDED) ==> after.attempt.0
            > before.attempt.0,
        before.admitted_at is Some ==> {
            &&& after.admitted_at == before.admitted_at
            &&& after.deadline == before.deadline
            &&& after.child == before.child
            &&& after.input is Some == before.input is Some
            &&& before.input matches Some(input) ==> input.sha256.0@ == (after.input->0).sha256.0@
        },
{
}

/// Work that goes on may be shown in a later attempt, in any state, as long as it is not being cancelled
/// and is shown as it was admitted.
pub proof fn law_work_may_go_on(before: WorkView, after: WorkView)
    requires
        !shows_end(before),
        before.state.0 != State::CANCELLING,
        before.work == after.work,
        before.attempt.0 < after.attempt.0 || (before.attempt == after.attempt && before.state.0
            != State::AWAITING_RETRY),
        before.admitted_at is Some ==> {
            &&& before.input.agrees(&after.input)
            &&& before.admitted_at == after.admitted_at
            &&& before.deadline == after.deadline
            &&& before.child == after.child
        },
    ensures
        observations::may_precede(before, after),
{
}

/// Of two observations the one with the lower revision comes first, whichever was made first; two of
/// one revision show the same.
pub proof fn law_revisions_order_observations(a: ObservedWork, b: ObservedWork)
    ensures
        a.revision.0 < b.revision.0 ==> (observations::both_hold(a, b)
            <==> observations::may_precede(a.view, b.view)),
        a.revision.0 != b.revision.0 ==> observations::both_hold(a, b) == observations::both_hold(b, a),
        a.revision == b.revision && observations::both_hold(a, b) ==> a.view.agrees(&b.view),
{
}

/// An intent to fence work.
pub open spec fn fences(intent: Intent, key: WorkKey, skip: bool) -> bool {
    intent.mutation == if skip {
        Mutation::Skip { work: key }
    } else {
        Mutation::Cancel { work: key }
    }
}

/// The receipt of a fence and the work as the fence left it are never taken for a contradiction.
pub proof fn law_fence_receipt_fits_the_work(
    t: Tables,
    i: int,
    j: int,
    at: release::Place,
    identity: SessionIdentity,
    key: WorkKey,
    skip: bool,
    operation: OperationId,
    clock: ClockReading,
    after: Tables,
    receipt: OperationReceipt,
    intent: Intent,
)
    requires
        t.well_formed(),
        0 <= i < t.sessions.len(),
        t.sessions[i].binding.identity.generation == identity.generation,
        t.sessions[i].operations < t.sessions[i].binding.limits.operations.0,
        exchange::keyed(t, j, identity.generation, key),
        release::placed(t, j, at),
        t.greatest <= clock.utc_ms.0,
        clock.utc_ms.0 + t.sessions[i].binding.policy.receipt_retention_ms.0
            <= super::super::error::MAX_NUMBER,
        t.work[j].revision.0 < super::super::error::MAX_NUMBER,
        conduct::over(t.work[j]) ==> (t.work[j].view.terminal_at matches Some(end) && end.0
            <= clock.utc_ms.0),
        !conduct::over(t.work[j]) ==> t.work[j].fence is None && t.open_fault(
            identity.generation,
            key.scope,
        ) is None,
        t.work_fenced(identity, key, skip, operation, clock, after, receipt),
        fences(intent, key, skip),
    ensures
        receipts::view_fault(intent, receipt.body, after.work[j].view) is None,
{
    acceptance::law_fence_receipt_tells_the_state(
        t,
        i,
        j,
        identity,
        key,
        skip,
        operation,
        clock,
        after,
        receipt,
    );
    super::super::authority::accounts::lemma_profiled(t, j);
    super::super::authority::accounts::lemma_named(t, i);
    let retention = t.sessions[i].binding.policy.receipt_retention_ms;
    acceptance::law_fence_takes_hold(t, j, at, skip, operation, clock.utc_ms, retention);
    exchange::lemma_keyed(t, j, identity.generation, key);
    release::lemma_session_row(t, i);
}

/// What a receipt of a fence binds. One that came in time promises its own end, no earlier than it was
/// accepted; one that came too late tells the end that there was, no later than it was accepted. A
/// replacement promises a later attempt.
pub proof fn law_receipt_binds_the_end(
    work: WorkKey,
    accepted_at: Number,
    timely: bool,
    state_at_commit: State,
    state: State,
    attempt: Number,
    committed: Number,
    expected_attempt: Id,
    replacement_attempt: Id,
)
    ensures
        ({
            let disposition = super::super::numbers::Disposition(
                if timely {
                    0
                } else {
                    1
                },
            );
            let cancelled = Outcome::Cancelled { work, accepted_at, disposition, state_at_commit };
            let skipped = Outcome::Skipped { work, accepted_at, disposition, state_at_commit };
            let retried = Outcome::Retried {
                work,
                expected_attempt,
                replacement_attempt,
                accepted_at,
            };
            &&& receipts::end_allowed(cancelled, state, attempt, committed) <==> if timely {
                state.0 == State::CANCELLED && accepted_at.0 <= committed.0
            } else {
                state == state_at_commit && committed.0 <= accepted_at.0
            }
            &&& receipts::end_allowed(skipped, state, attempt, committed) <==> if timely {
                state.0 == State::SKIPPED && accepted_at.0 <= committed.0
            } else {
                state == state_at_commit && committed.0 <= accepted_at.0
            }
            &&& receipts::end_allowed(retried, state, attempt, committed) <==> replacement_attempt.0
                <= attempt.0 && accepted_at.0 <= committed.0
            &&& receipts::hint_allowed(cancelled, state) <==> state.0 == if timely {
                State::CANCELLED
            } else {
                state_at_commit.0
            }
            &&& receipts::hint_allowed(skipped, state) <==> state.0 == if timely {
                State::SKIPPED
            } else {
                state_at_commit.0
            }
            &&& receipts::hint_allowed(retried, state)
            &&& receipts::change_time(cancelled) == if timely {
                Some(accepted_at)
            } else {
                None
            }
            &&& receipts::change_time(skipped) == if timely {
                Some(accepted_at)
            } else {
                None
            }
            &&& receipts::change_time(retried) == Some(accepted_at)
        }),
{
}

/// What two receipts about work say of one another. A cancellation and a skip in time cannot both have
/// been accepted; a fence or a replacement is not accepted before the work was admitted; a replacement
/// is accepted before the deadline, and not after a fence.
pub proof fn law_receipts_exclude_one_another(a: OperationReceipt, b: OperationReceipt)
    requires
        receipts::outcomes_compatible(a.body, b.body),
        receipts::outcomes_compatible(b.body, a.body),
    ensures
        a.body matches Outcome::Cancelled { disposition: d, .. } ==> (
        b.body matches Outcome::Skipped { disposition: e, .. } ==> d.0 != 0 || e.0 != 0),
        a.body matches Outcome::Admitted { admitted_at, deadline, .. } ==> {
            &&& b.body matches Outcome::Cancelled { accepted_at, .. } ==> admitted_at.0
                <= accepted_at.0
            &&& b.body matches Outcome::Skipped { accepted_at, .. } ==> admitted_at.0 <= accepted_at.0
            &&& b.body matches Outcome::Retried { accepted_at, .. } ==> admitted_at.0
                <= accepted_at.0 < deadline.0
        },
        a.body matches Outcome::Retried { accepted_at: replaced, .. } ==> {
            &&& b.body matches Outcome::Cancelled { accepted_at, .. } ==> replaced.0 <= accepted_at.0
            &&& b.body matches Outcome::Skipped { accepted_at, .. } ==> replaced.0 <= accepted_at.0
        },
{
}

/// Receipts that follow one another in time fit together: an admission, then replacements before the
/// deadline, then a fence.
pub proof fn law_receipts_in_order_fit(
    admitted: Outcome,
    retried: Outcome,
    fence: Outcome,
    admitted_at: Number,
    deadline: Number,
    replaced_at: Number,
    fenced_at: Number,
)
    requires
        admitted matches Outcome::Admitted { admitted_at: a, deadline: d, .. } && a == admitted_at
            && d == deadline,
        retried matches Outcome::Retried { accepted_at, .. } && accepted_at == replaced_at,
        (fence matches Outcome::Cancelled { accepted_at, .. } && accepted_at == fenced_at) || (
        fence matches Outcome::Skipped { accepted_at, .. } && accepted_at == fenced_at),
        admitted_at.0 <= replaced_at.0 <= fenced_at.0,
        replaced_at.0 < deadline.0,
    ensures
        receipts::outcomes_compatible(admitted, retried),
        receipts::outcomes_compatible(retried, admitted),
        receipts::outcomes_compatible(admitted, fence),
        receipts::outcomes_compatible(fence, admitted),
        receipts::outcomes_compatible(retried, fence),
        receipts::outcomes_compatible(fence, retried),
{
}

/// A manifest and a view of the same work that was being cancelled, is in a later attempt, or was
/// admitted with another input cannot both be true; nor can one that was committed outside the time
/// that the work was admitted for, or one that an end does not show.
pub proof fn law_manifest_contradicts_other_views(m: Manifest, view: WorkView)
    requires
        observations::manifest_fits_view(m, view),
    ensures
        view.state.0 != State::CANCELLING,
        view.attempt.0 <= m.attempt.0,
        view.state.0 == State::AWAITING_RETRY ==> view.attempt.0 < m.attempt.0,
        view.input matches Some(input) ==> input.sha256.0@ == m.input_sha256.0@,
        view.admitted_at matches Some(at) ==> at.0 <= m.committed_at.0,
        view.admitted_at is Some ==> (view.deadline matches Some(at) && m.committed_at.0 < at.0),
        shows_end(view) ==> view.state.0 == State::SUCCEEDED && view.manifest is Some,
        shows_end(view) ==> (view.manifest->0).attempt == m.attempt && (
        view.manifest->0).committed_at == m.committed_at,
{
}

/// The manifest that a valid success shows fits it, in the time that the work was admitted for.
pub proof fn law_published_manifest_fits(view: WorkView)
    requires
        view.valid(),
        view.state.0 == State::SUCCEEDED,
        view.manifest matches Some(m) && (view.deadline matches Some(at) && m.committed_at.0 < at.0),
    ensures
        observations::manifest_fits_view(view.manifest->0, view),
{
    (view.manifest->0).agrees_reflexive();
}

/// Every page that the authority shows is the page that was asked for.
pub proof fn law_shown_page_correlates(
    t: Tables,
    k: int,
    generation: Id,
    scope: Number,
    behind: Number,
    limit: PageLimit,
    number: Id,
    page: Control,
)
    requires
        t.well_formed(),
        t.active(generation),
        release::scope_row(t, k, generation, scope.0),
        t.page_shown(generation, number, scope, behind, limit, page),
        conduct::numbered(t),
    ensures
        pages::page_correlates(
            Control::Scope(Scope::Page { request: number, scope, after_entity: behind, limit }),
            page,
        ),
{
    release::lemma_scope_row(t, k, generation, scope.0);
    super::super::authority::accounts::lemma_counted(t, k);
    let n = conduct::lemma_page(t, generation, scope, behind);
    let members = t.members(generation, scope);
    let rows = t.page_rows(generation, scope, behind);
    let inner = page->Scope_0;
    let entries = inner->PageResponse_entries@;
    assert forall|a: int| 0 <= a < entries.len() implies (#[trigger] entries[a]).entity.0
        > behind.0 by {
        assert(rows[a] == members[n + a]);
    }
    if behind.0 == 0 && n > 0 {
        let j = table::lemma_rows_where_from(
            t.work,
            super::super::authority::store::in_scope(generation, scope),
            0,
        );
        assert(t.work[j] == members[0]);
    }
}

/// It does not matter in which order two reports of a scope arrive.
pub proof fn law_reports_merge_in_any_order(a: ScopeObservation, b: ScopeObservation)
    requires
        !a.membership_verified,
        !b.membership_verified,
    ensures
        known::merged(a, b) == known::merged(b, a),
{
}

/// Two true reports of a scope come to the later one: members are only added, and a seal that was
/// reported stays with the number of members it was set on.
pub proof fn law_later_report_is_kept(earlier: ScopeObservation, later: ScopeObservation)
    requires
        !earlier.membership_verified,
        !later.membership_verified,
        earlier.scope == later.scope,
        earlier.producer == later.producer,
        earlier.parent == later.parent,
        earlier.declared.0 <= later.declared.0,
        earlier.seal is Some ==> later.seal == earlier.seal && later.declared == earlier.declared,
    ensures
        known::merged(earlier, later) == Some(later),
        known::merged(later, earlier) == Some(later),
{
}

/// Reports that cannot both be true are not merged: of other scopes, under other seals, with more
/// members than a seal has, or with fewer under a seal than were known.
pub proof fn law_contradicting_reports_are_refused(a: ScopeObservation, b: ScopeObservation)
    requires
        ({
            ||| a.scope != b.scope
            ||| a.producer != b.producer
            ||| a.parent != b.parent
            ||| a.seal is Some && b.seal is Some && (a.seal != b.seal || a.declared != b.declared)
            ||| a.seal is Some && b.declared.0 > a.declared.0
            ||| b.seal is Some && a.declared.0 > b.declared.0
        }),
    ensures
        known::merged(a, b) is None,
{
}

/// An end that a page reports fits a view exactly where the view may still come to it.
pub proof fn law_reported_end_fits_the_view(hint: State, view: WorkView)
    ensures
        shows_end(view) ==> (known::hint_fits(hint, view) <==> hint == view.state),
        view.state.0 == State::CANCELLING ==> (known::hint_fits(hint, view) <==> hint.0
            == State::CANCELLED || hint.0 == State::SKIPPED),
        !shows_end(view) && view.state.0 != State::CANCELLING ==> known::hint_fits(hint, view),
{
}

/// A declaration's receipt is taken for what the scope has since: its number of members and its seal.
pub proof fn law_declaration_is_applied(
    scope: ScopeObservation,
    receipt: OperationReceipt,
    declared: Number,
    seal: Option<Digest>,
)
    requires
        !scope.membership_verified,
        scope.seal is None,
        receipt.body matches Outcome::Declared { scope: s, producer: p, declared: n, seal: d, .. }
            && s == scope.scope && p == scope.producer && n == declared && d == seal,
        scope.declared.0 <= declared.0,
    ensures
        known::declaration_applied(scope, receipt) matches Ok(after) && after.declared == declared
            && after.seal == seal && after.scope == scope.scope && after.parent == scope.parent,
{
}

/// How many of the members were seen to end in a state.
pub open spec fn seen_in(t: Notes, rows: Seq<ScopeMember>, state: u64) -> nat
    decreases rows.len(),
{
    if rows.len() == 0 {
        0
    } else {
        seen_in(t, rows.drop_last(), state) + if t.view_of(rows.last()).state.0 == state {
            1nat
        } else {
            0nat
        }
    }
}

/// The counts are those of the views, end by end.
pub open spec fn counts_seen(t: Notes, counts: Counts, rows: Seq<ScopeMember>) -> bool {
    &&& counts.success.0 == seen_in(t, rows, State::SUCCEEDED)
    &&& counts.failure.0 == seen_in(t, rows, State::FAILED)
    &&& counts.cancelled.0 == seen_in(t, rows, State::CANCELLED)
    &&& counts.skipped.0 == seen_in(t, rows, State::SKIPPED)
}

proof fn lemma_tally_seen(t: Notes, rows: Seq<ScopeMember>)
    requires
        rows.len() <= u64::MAX,
        forall|i: int| 0 <= i < rows.len() ==> shows_end(t.view_of(#[trigger] rows[i])),
    ensures
        counts_seen(t, t.tally(rows), rows),
        t.tally(rows).success.0 <= rows.len(),
        t.tally(rows).failure.0 <= rows.len(),
        t.tally(rows).cancelled.0 <= rows.len(),
        t.tally(rows).skipped.0 <= rows.len(),
    decreases rows.len(),
{
    if rows.len() > 0 {
        let front = rows.drop_last();
        assert forall|i: int| 0 <= i < front.len() implies shows_end(
            t.view_of(#[trigger] front[i]),
        ) by {
            assert(front[i] == rows[i]);
        }
        lemma_tally_seen(t, front);
        assert(shows_end(t.view_of(rows[rows.len() - 1])));
    }
}

/// The scope below the work was covered: opened by it, of the producer that it names, and closed no
/// later than the scope above. Below a success every member succeeded, before it.
pub open spec fn covered_below(t: Notes, view: WorkView, summary: ScopeSummary) -> bool {
    view.child matches Some(child) ==> {
        let c = t.coverage_at(Number(child.scope.0));
        let below = t.coverage[c];
        &&& c < t.coverage.len()
        &&& below.parent == Some(view.work)
        &&& below.producer == child.producer
        &&& below.closed_at.0 <= summary.closed_at.0
        &&& view.state.0 == State::SUCCEEDED ==> below.counts.success == below.declared && (
        view.terminal_at matches Some(at) && below.closed_at.0 <= at.0)
    }
}

/// A leaf is the digest of how the member was seen to end.
pub open spec fn leaf_seen(t: Notes, view: WorkView, leaf: Seq<u8>) -> bool {
    exists|l: StatusLeaf|
        {
            &&& leaf == #[trigger] l.leaf_digest()
            &&& l.work == view.work
            &&& l.state == view.state
            &&& l.attempt == view.attempt
            &&& match view.manifest {
                Some(m) => l.manifest_digest == Some(labels::digest_of(m.manifest_digest())),
                None => l.manifest_digest is None,
            }
            &&& match view.child {
                Some(child) => l.child_status_root == Some(
                    t.coverage[t.coverage_at(Number(child.scope.0))].status_root,
                ),
                None => l.child_status_root is None,
            }
        }
}

proof fn lemma_leaves_seen(t: Notes, rows: Seq<ScopeMember>)
    ensures
        t.closing_leaves(rows).len() == rows.len(),
        forall|i: int|
            0 <= i < rows.len() ==> leaf_seen(
                t,
                t.view_of(rows[i]),
                #[trigger] t.closing_leaves(rows)[i],
            ),
    decreases rows.len(),
{
    if rows.len() > 0 {
        let front = rows.drop_last();
        lemma_leaves_seen(t, front);
        let last = rows.last();
        let view = t.view_of(last);
        let l = t.closing_leaf(last);
        assert(leaf_seen(t, view, l.leaf_digest()));
        assert forall|i: int| 0 <= i < rows.len() implies leaf_seen(
            t,
            t.view_of(rows[i]),
            #[trigger] t.closing_leaves(rows)[i],
        ) by {
            if i < front.len() {
                assert(t.closing_leaves(rows)[i] == t.closing_leaves(front)[i]);
                assert(front[i] == rows[i]);
            } else {
                assert(rows[i] == last);
            }
        }
    }
}

/// A summary that a client accepts tells what the client has seen: under the seal of a membership that
/// it has verified, each member ended by then, with what is below it closed, counted end by end, and a
/// root over one leaf for each.
pub proof fn law_accepted_summary_tells_what_was_seen(t: Notes, summary: ScopeSummary)
    requires
        t.coverage_fault(summary) is None,
    ensures
        ({
            let rows = t.scope_members(summary.scope);
            let scope = t.scopes[t.scope_at(summary.scope)];
            &&& t.scope_at(summary.scope) < t.scopes.len()
            &&& scope.membership_verified
            &&& scope.seal matches Some(seal) && seal.0@ == summary.seal.0@
            &&& scope.declared == summary.declared
            &&& scope.producer == summary.producer
            &&& scope.parent == summary.parent
            &&& rows.len() == summary.declared.0
            &&& counts_seen(t, summary.counts, rows)
            &&& forall|i: int|
                0 <= i < rows.len() ==> {
                    let view = t.view_of(#[trigger] rows[i]);
                    &&& rows[i].work.producer == scope.producer
                    &&& t.observed_at(rows[i].work) < t.observations.len()
                    &&& shows_end(view)
                    &&& view.terminal_at matches Some(at) && at.0 <= summary.closed_at.0
                    &&& covered_below(t, view, summary)
                }
            &&& exists|leaves: Seq<Seq<u8>>|
                {
                    &&& #[trigger] commitments::merkle_root(leaves) == summary.status_root.0@
                    &&& leaves.len() == rows.len()
                    &&& forall|i: int|
                        0 <= i < rows.len() ==> leaf_seen(
                            t,
                            t.view_of(rows[i]),
                            #[trigger] leaves[i],
                        )
                }
        }),
{
    reveal(Notes::coverage_fault);
    let scope = t.scopes[t.scope_at(summary.scope)];
    let rows = t.scope_members(summary.scope);
    table::lemma_index_where(t.scopes, journal::is_scope(summary.scope));
    closure::law_verified_membership_is_complete(t, scope);
    table::lemma_first_fault_none(rows, t.closing_check(scope, summary));
    assert forall|i: int| 0 <= i < rows.len() implies ({
        let view = t.view_of(#[trigger] rows[i]);
        &&& rows[i].work.producer == scope.producer
        &&& t.observed_at(rows[i].work) < t.observations.len()
        &&& shows_end(view)
        &&& view.terminal_at matches Some(at) && at.0 <= summary.closed_at.0
        &&& covered_below(t, view, summary)
    }) by {
        assert(t.closing_check(scope, summary)(rows[i]) is None);
    }
    lemma_tally_seen(t, rows);
    lemma_leaves_seen(t, rows);
}

/// A summary that tells what the client has seen is accepted.
pub proof fn law_true_summary_is_accepted(t: Notes, summary: ScopeSummary, leaves: Seq<Seq<u8>>)
    requires
        summary.valid(),
        t.scope_at(summary.scope) < t.scopes.len(),
        ({
            let rows = t.scope_members(summary.scope);
            let scope = t.scopes[t.scope_at(summary.scope)];
            &&& t.scope_fault(scope) is None
            &&& scope.membership_verified
            &&& scope.seal matches Some(seal) && seal.0@ == summary.seal.0@
            &&& scope.declared == summary.declared
            &&& scope.producer == summary.producer
            &&& scope.parent == summary.parent
            &&& counts_seen(t, summary.counts, rows)
            &&& forall|i: int|
                0 <= i < rows.len() ==> {
                    let view = t.view_of(#[trigger] rows[i]);
                    &&& rows[i].work.producer == scope.producer
                    &&& t.member_fault(rows[i]) is None
                    &&& t.observed_at(rows[i].work) < t.observations.len()
                    &&& t.view_problem(t.observations[t.observed_at(rows[i].work)]) is None
                    &&& shows_end(view)
                    &&& view.terminal_at matches Some(at) && at.0 <= summary.closed_at.0
                    &&& covered_below(t, view, summary)
                    &&& view.manifest matches Some(m) ==> m.valid() && m.wire().len()
                        <= MAX_CONTROL_LIMIT
                    &&& t.closing_leaf(rows[i]).valid()
                    &&& leaves[i] == t.closing_leaf(rows[i]).leaf_digest()
                }
            &&& leaves.len() == rows.len()
            &&& commitments::merkle_root(leaves) == summary.status_root.0@
        }),
    ensures
        t.coverage_fault(summary) is None,
{
    reveal(Notes::coverage_fault);
    let scope = t.scopes[t.scope_at(summary.scope)];
    let rows = t.scope_members(summary.scope);
    table::lemma_index_where(t.scopes, journal::is_scope(summary.scope));
    closure::law_verified_membership_is_complete(t, scope);
    let f = t.closing_check(scope, summary);
    assert forall|i: int| 0 <= i < rows.len() implies f(#[trigger] rows[i]) is None by {}
    table::lemma_first_fault_whole(rows, f);
    lemma_no_fault(rows, f);
    assert forall|i: int| 0 <= i < rows.len() implies shows_end(
        t.view_of(#[trigger] rows[i]),
    ) by {}
    lemma_tally_seen(t, rows);
    assert(t.tally(rows) == summary.counts);
    lemma_same_leaves(t, rows, leaves);
}

/// Where nothing is objected to, there is no first objection.
proof fn lemma_no_fault<T, F>(s: Seq<T>, f: spec_fn(T) -> Option<F>)
    requires
        forall|i: int| 0 <= i < s.len() ==> f(#[trigger] s[i]) is None,
    ensures
        table::first_fault(s, f) is None,
    decreases s.len(),
{
    if s.len() > 0 {
        let front = s.drop_last();
        assert forall|i: int| 0 <= i < front.len() implies f(#[trigger] front[i]) is None by {
            assert(front[i] == s[i]);
        }
        lemma_no_fault(front, f);
        assert(f(s[s.len() - 1]) is None);
    }
}

proof fn lemma_same_leaves(t: Notes, rows: Seq<ScopeMember>, leaves: Seq<Seq<u8>>)
    requires
        leaves.len() == rows.len(),
        forall|i: int|
            0 <= i < rows.len() ==> #[trigger] leaves[i] == t.closing_leaf(rows[i]).leaf_digest(),
    ensures
        t.closing_leaves(rows) == leaves,
    decreases rows.len(),
{
    if rows.len() > 0 {
        let front = rows.drop_last();
        let rest = leaves.drop_last();
        assert forall|i: int| 0 <= i < front.len() implies #[trigger] rest[i] == t.closing_leaf(
            front[i],
        ).leaf_digest() by {
            assert(rest[i] == leaves[i]);
            assert(front[i] == rows[i]);
        }
        lemma_same_leaves(t, front, rest);
        assert(leaves[leaves.len() - 1] == t.closing_leaf(rows[rows.len() - 1]).leaf_digest());
        assert(t.closing_leaves(rows) =~= leaves);
    } else {
        assert(leaves =~= Seq::empty());
    }
}

} // verus!
