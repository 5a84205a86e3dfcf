//! How a journal is kept: the session is bound once, intents stand in the order of their preparation
//! until they are answered, views only grow newer, and the session is complete once its root is.

use super::super::authority::release;
use super::super::authority::store::Fault;
use super::super::authority::table;
use super::super::error::{ErrorCode, DURABLE_WORK, RESULT_DELIVERY};
use super::super::messages::{Control, Drain, Session};
use super::super::negotiation::Capabilities;
use super::super::numbers::{Id, Number, PageLimit};
use super::super::wire::Wire;
use super::closure;
use super::journal::{self, Notes};
use super::observations;
use super::promises;
use super::records::ObservedWork;
use super::storage::{self, Intent, JournalError};
use vstd::prelude::*;

verus! {

/// A binding is kept where it is of the session that was created, over a connection with the same
/// profiles. It says which generation the session is, once and for all.
pub proof fn law_session_is_bound_once(
    t: Notes,
    response: Control,
    selected: Capabilities,
    r: Result<(), JournalError>,
    after: Notes,
)
    requires
        journal::binding_recorded(t, response, selected, r, after),
    ensures
        r is Err ==> after == t,
        r is Ok ==> {
            &&& selected.supports(DURABLE_WORK)
            &&& selected.supports(RESULT_DELIVERY) == t.creation.results
            &&& selected.response.0 == 1
            &&& after == (Notes { bound: after.bound, ..t })
            &&& t.bound is Some ==> after == t
            &&& response matches Control::Session(
                Session::Binding {
                    authority,
                    owner,
                    generation,
                    creation_sequence,
                    policy,
                    limits,
                    ..
                },
            ) && after.bound matches Some(b) && {
                &&& authority.0@ == t.creation.authority.0@
                &&& owner.0@ == t.creation.owner.0@
                &&& creation_sequence == t.creation.creation_sequence
                &&& policy == t.creation.policy
                &&& b.identity.authority.0@ == authority.0@
                &&& b.identity.owner.0@ == owner.0@
                &&& b.identity.generation == generation
                &&& b.creation_sequence == creation_sequence
                &&& b.policy == policy
                &&& b.limits == limits
            }
        },
{
}

/// The binding of the created session is taken, and the same one again; another generation, or other
/// limits, under a session that is bound is refused.
pub proof fn law_true_binding_is_taken(
    t: Notes,
    response: Control,
    selected: Capabilities,
    r: Result<(), JournalError>,
    after: Notes,
)
    requires
        selected.valid(),
        selected.response.0 == 1,
        selected.supports(DURABLE_WORK),
        selected.supports(RESULT_DELIVERY) == t.creation.results,
        response.sendable(storage::IMAGE_LIMIT),
        response matches Control::Session(s) && s is Binding,
        journal::binding_recorded(t, response, selected, r, after),
    ensures
        ({
            let s = response->Session_0;
            let ours = s->Binding_authority.0@ == t.creation.authority.0@ && s->Binding_owner.0@
                == t.creation.owner.0@ && s->Binding_creation_sequence
                == t.creation.creation_sequence && s->Binding_policy == t.creation.policy;
            let same = t.bound matches Some(b) ==> {
                &&& b.identity.authority.0@ == s->Binding_authority.0@
                &&& b.identity.owner.0@ == s->Binding_owner.0@
                &&& b.identity.generation == s->Binding_generation
                &&& b.creation_sequence == s->Binding_creation_sequence
                &&& b.policy == s->Binding_policy
                &&& b.limits == s->Binding_limits
            };
            &&& r is Ok <==> ours && same
            &&& !(ours && same) ==> (r matches Err(e) && e.fault() == Fault::Refused(
                ErrorCode::IntegrityError,
            ))
        }),
{
}

/// What is prepared stands behind everything that was, without an answer; what was there stays.
pub proof fn law_intents_stand_in_order(
    t: Notes,
    intent: Intent,
    r: Result<(), JournalError>,
    after: Notes,
)
    requires
        t.ordered(),
        journal::prepared(t, intent, r, after),
        forall|i: int|
            0 <= i < t.operations.len() ==> (#[trigger] t.operations[i]).intent.operation.0@
                != intent.operation.0@,
    ensures
        r is Err ==> after == t,
        r is Ok ==> {
            let n = t.operations.len() as int;
            &&& after == (Notes { operations: after.operations, ..t })
            &&& after.operations.len() == n + 1
            &&& after.operations[n].intent.agrees(intent)
            &&& after.operations[n].receipt is None
            &&& forall|i: int|
                0 <= i < n ==> (#[trigger] t.operations[i]).row < after.operations[n].row
            &&& forall|i: int| 0 <= i < n ==> #[trigger] after.operations[i] == t.operations[i]
        },
{
    let p = journal::is_intent(intent.operation.0@);
    table::lemma_index_where(t.operations, p);
    let at = t.operation_at(intent.operation.0@);
    if at < t.operations.len() {
        assert(p(t.operations[at]));
        assert(t.operations[at].intent.operation.0@ != intent.operation.0@);
    }
    if r is Ok && t.operations.len() > 0 {
        assert(t.operations.last() == t.operations[t.operations.len() - 1]);
    }
}

/// The entry is an intent that was not answered, behind a row.
pub open spec fn unanswered(t: Notes, behind: Number, entry: (Id, Intent)) -> bool {
    exists|i: int|
        {
            &&& 0 <= i < t.operations.len()
            &&& (#[trigger] t.operations[i]).row == entry.0.0
            &&& t.operations[i].row > behind.0
            &&& t.operations[i].receipt is None
            &&& entry.1.agrees(t.operations[i].intent)
        }
}

/// The page has an entry for a row.
pub open spec fn lists(page: Seq<(Id, Intent)>, row: u64) -> bool {
    exists|n: int| 0 <= n < page.len() && (#[trigger] page[n]).0.0 == row
}

/// The intents that were not answered are listed by their rows: every one that is listed is one, behind
/// the row that was named, and where fewer are listed than were asked for, all are.
pub proof fn law_unanswered_intents_are_listed(
    t: Notes,
    behind: Number,
    limit: PageLimit,
    r: Result<Vec<(Id, Intent)>, JournalError>,
)
    requires
        behind.valid(),
        limit.valid(),
        journal::unresolved_listed(t, behind, limit, r),
    ensures
        r is Ok,
        r->Ok_0@.len() <= limit.0,
        forall|n: int| 0 <= n < r->Ok_0@.len() ==> unanswered(t, behind, #[trigger] r->Ok_0@[n]),
        r->Ok_0@.len() < limit.0 ==> forall|i: int|
            0 <= i < t.operations.len() && (#[trigger] t.operations[i]).row > behind.0
                && t.operations[i].receipt is None ==> lists(r->Ok_0@, t.operations[i].row),
{
    let p = journal::is_unresolved(behind);
    let rows = table::rows_where(t.operations, p);
    let page = r->Ok_0@;
    assert forall|n: int| 0 <= n < page.len() implies unanswered(t, behind, #[trigger] page[n]) by {
        table::lemma_rows_where_member(t.operations, p, n);
        let i = table::lemma_rows_where_from(t.operations, p, n);
        assert(t.operations[i] == rows[n]);
        assert(page[n].0 == Id(rows[n].row));
    }
    if page.len() < limit.0 {
        assert forall|i: int|
            0 <= i < t.operations.len() && (#[trigger] t.operations[i]).row > behind.0
                && t.operations[i].receipt is None implies lists(page, t.operations[i].row) by {
            assert(p(t.operations[i]));
            let n = release::lemma_row_listed(t.operations, p, i);
            assert(page.len() == rows.len());
            assert(page[n].0 == Id(rows[n].row));
        }
    }
}

/// The latest view of work is told back: the one that came in, or the later one that was known. What was
/// known does not go back to an earlier revision.
pub proof fn law_latest_view_is_told_back(
    t: Notes,
    incoming: ObservedWork,
    r: Result<ObservedWork, JournalError>,
    after: Notes,
    at: int,
)
    requires
        observations::view_taken(t, incoming, r, after),
        0 <= at < t.observations.len(),
        t.observations[at].view.work == incoming.view.work,
        forall|j: int| 0 <= j < at ==> (#[trigger] t.observations[j]).view.work != incoming.view.work,
    ensures
        r is Err ==> after == t,
        r matches Ok(newest) ==> {
            &&& if incoming.revision.0 <= t.observations[at].revision.0 {
                newest.agrees(&t.observations[at]) && after == t
            } else {
                newest.agrees(&incoming) && after.observations[at].agrees(&incoming)
            }
            &&& newest.revision.0 >= incoming.revision.0
            &&& newest.revision.0 >= t.observations[at].revision.0
            &&& after.observations.len() == t.observations.len()
            &&& after.operations == t.operations
            &&& after.bound == t.bound
            &&& after.scopes == t.scopes
            &&& after.coverage == t.coverage
        },
{
    let p = journal::is_observed(incoming.view.work);
    assert forall|j: int| 0 <= j < at implies !p(#[trigger] t.observations[j]) by {}
    table::lemma_index_unique(t.observations, p, at);
}

/// A session is complete once its root is: the drain names the generation and the summary that was
/// recorded of the root. Before that it is not ready.
pub proof fn law_session_completes_with_its_root(
    t: Notes,
    request: Id,
    r: Result<Control, JournalError>,
    c: int,
)
    requires
        t.ordered(),
        request.valid(),
        t.bound is Some,
        0 <= c <= t.coverage.len(),
        forall|j: int| 0 <= j < c ==> (#[trigger] t.coverage[j]).scope.0 != 0,
        c < t.coverage.len() ==> t.coverage[c].scope.0 == 0,
        t.covered_fault(Number(0)) is None,
        closure::completion_given(t, request, r),
    ensures
        c == t.coverage.len() ==> (r matches Err(e) && e.fault() == Fault::Refused(
            ErrorCode::NotReady,
        )),
        c < t.coverage.len() ==> (r matches Ok(Control::Drain(d)) && d == (Drain::Complete {
            request,
            generation: t.bound->0.identity.generation,
            root_summary: t.coverage[c],
        })),
{
    let p = journal::is_coverage(Number(0));
    assert forall|j: int| 0 <= j < c implies !p(#[trigger] t.coverage[j]) by {
        assert(t.coverage[j].scope.0 != 0);
    }
    table::lemma_index_unique(t.coverage, p, c);
    if c < t.coverage.len() {
        promises::law_root_completion_is_sendable(t, request);
    }
}

} // verus!
