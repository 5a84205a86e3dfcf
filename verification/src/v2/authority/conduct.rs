//! What reconciliation does about work and scopes, told from the rows alone: which end is due for a
//! unit of work, what a scope that closes has counted, and when it closes.

use super::super::commitments::{self, SessionIdentity, StatusLeaf};
use super::super::error::{ErrorCode, MAX_NUMBER};
use super::super::labels;
use super::super::numbers::{Id, Number, State};
use super::super::records::{Counts, Diagnostic};
use super::super::wire::Wire;
use super::accounts;
use super::reconcile::{self, Advance, Scan, ScopeOutcome};
use super::release;
use super::scopes;
use super::settlement;
use super::store::{self, Fault, ScopeRow, Tables, WorkRow};
use super::table;
use vstd::prelude::*;
use vstd::utf8::*;

verus! {

/// The work has come to one of the four ends.
pub open spec fn over(row: WorkRow) -> bool {
    ||| row.view.state.0 == State::SUCCEEDED
    ||| row.view.state.0 == State::FAILED
    ||| row.view.state.0 == State::CANCELLED
    ||| row.view.state.0 == State::SKIPPED
}

/// How many of the rows are in a state.
pub open spec fn tally(rows: Seq<WorkRow>, state: u64) -> nat
    decreases rows.len(),
{
    if rows.len() == 0 {
        0
    } else {
        tally(rows.drop_last(), state) + if rows.last().view.state.0 == state {
            1nat
        } else {
            0nat
        }
    }
}

/// The counts are those of the rows, end by end.
pub open spec fn counts_are(counts: Counts, rows: Seq<WorkRow>) -> bool {
    &&& counts.success.0 == tally(rows, State::SUCCEEDED)
    &&& counts.failure.0 == tally(rows, State::FAILED)
    &&& counts.cancelled.0 == tally(rows, State::CANCELLED)
    &&& counts.skipped.0 == tally(rows, State::SKIPPED)
}

/// The summary of a closed scope tells how its members ended.
pub open spec fn told(t: Tables, k: int) -> bool {
    let members = t.members(t.scopes[k].generation, t.scopes[k].scope);
    &&& t.scopes[k].summary matches Some(s) && s.declared.0 == members.len() && counts_are(
        s.counts,
        members,
    )
    &&& forall|i: int| 0 <= i < members.len() ==> over(#[trigger] members[i])
}

/// As many rows are in a state as there are, exactly where all of them are.
proof fn lemma_tally_all(rows: Seq<WorkRow>, state: u64)
    ensures
        tally(rows, state) <= rows.len(),
        tally(rows, state) == rows.len() <==> forall|i: int|
            0 <= i < rows.len() ==> (#[trigger] rows[i]).view.state.0 == state,
    decreases rows.len(),
{
    if rows.len() > 0 {
        let front = rows.drop_last();
        lemma_tally_all(front, state);
        if tally(rows, state) == rows.len() {
            assert forall|i: int| 0 <= i < rows.len() implies (
            #[trigger] rows[i]).view.state.0 == state by {
                if i < front.len() {
                    assert(front[i] == rows[i]);
                }
            }
        }
        if forall|i: int| 0 <= i < rows.len() ==> (#[trigger] rows[i]).view.state.0 == state {
            assert forall|i: int| 0 <= i < front.len() implies (
            #[trigger] front[i]).view.state.0 == state by {
                assert(front[i] == rows[i]);
            }
            assert(rows[rows.len() - 1].view.state.0 == state);
        }
    }
}

/// Work that goes on, that no fence holds and that has time left is decided by the scope that was
/// opened for it, once that has closed: a single member that did not succeed, however it ended, fails
/// the work at once; where every member succeeded the work is left alone.
pub proof fn law_strict_child_decides(t: Tables, j: int, k: int, now: Number, after: Tables, settled: bool)
    requires
        0 <= j < t.work.len(),
        0 <= k < t.scopes.len(),
        !over(t.work[j]),
        t.work[j].fence is None,
        t.open_fault(t.work[j].generation, t.work[j].view.work.scope) is None,
        t.work[j].view.deadline matches Some(at) ==> now.0 < at.0,
        t.work[j].view.child matches Some(child) && child.scope.0 == t.scopes[k].scope.0,
        t.scopes[k].generation == t.work[j].generation,
        t.arranged(),
        told(t, k),
        t.settle_step(j, now, after, settled),
    ensures
        ({
            let members = t.members(t.scopes[k].generation, t.scopes[k].scope);
            let new = after.work[j];
            if exists|i: int|
                0 <= i < members.len() && (#[trigger] members[i]).view.state.0
                    != State::SUCCEEDED {
                &&& settled
                &&& new.view.state.0 == State::FAILED
                &&& new.view.diagnostic matches Some(d) && d.detail.0@
                    == "STRICT child scope contains nonsuccessful work"@
                &&& new.view.terminal_at == Some(now)
                &&& new.view.manifest is None
                &&& new.view.work == t.work[j].view.work
                &&& forall|i: int|
                    0 <= i < t.work.len() && i != j ==> #[trigger] after.work[i] == t.work[i]
            } else {
                !settled && after == t
            }
        }),
{
    let generation = t.work[j].generation;
    let child = t.work[j].view.child->0;
    let p = store::is_scope(generation, Number(child.scope.0));
    assert forall|i: int| 0 <= i < k implies !p(#[trigger] t.scopes[i]) by {
        assert(t.scopes[i].generation == t.scopes[k].generation ==> t.scopes[i].scope
            != t.scopes[k].scope);
    }
    assert(Number(child.scope.0) == t.scopes[k].scope);
    table::lemma_index_unique(t.scopes, p, k);
    let members = t.members(t.scopes[k].generation, t.scopes[k].scope);
    lemma_tally_all(members, State::SUCCEEDED);
}

/// The row of the scope that was opened for the work.
pub open spec fn opened(t: Tables, j: int, k: int) -> bool {
    &&& 0 <= k < t.scopes.len()
    &&& t.work[j].view.child matches Some(child) && child.scope.0 == t.scopes[k].scope.0
    &&& t.scopes[k].generation == t.work[j].generation
}

proof fn lemma_opened(t: Tables, j: int, k: int)
    requires
        t.arranged(),
        opened(t, j, k),
    ensures
        t.scope_at(t.work[j].generation, Number((t.work[j].view.child->0).scope.0)) == k,
{
    let generation = t.work[j].generation;
    let child = t.work[j].view.child->0;
    let p = store::is_scope(generation, Number(child.scope.0));
    assert forall|i: int| 0 <= i < k implies !p(#[trigger] t.scopes[i]) by {
        assert(t.scopes[i].generation == t.scopes[k].generation ==> t.scopes[i].scope
            != t.scopes[k].scope);
    }
    assert(Number(child.scope.0) == t.scopes[k].scope);
    table::lemma_index_unique(t.scopes, p, k);
}

/// What a settling step does at all: it ends one unit of work that was not over, at the time of the
/// step, and takes its executor away. Nothing else changes, and what is over is never touched.
pub proof fn law_settling_ends_one_unit(t: Tables, j: int, now: Number, after: Tables, settled: bool)
    requires
        0 <= j < t.work.len(),
        t.settle_step(j, now, after, settled),
    ensures
        !settled ==> after == t,
        over(t.work[j]) ==> !settled,
        settled ==> {
            let old = t.work[j];
            let new = after.work[j];
            let retention = t.sessions[t.session_at(
                old.generation,
            )].binding.policy.receipt_retention_ms;
            &&& !over(old)
            &&& after == (Tables { work: t.work.update(j, new), ..t })
            &&& new.row == old.row && new.generation == old.generation && new.fence == old.fence
            &&& new.revision.0 == old.revision.0 + 1
            &&& new.view.work == old.view.work && new.view.attempt == old.view.attempt
            &&& new.view.input == old.view.input && new.view.admitted_at == old.view.admitted_at
            &&& new.view.deadline == old.view.deadline && new.view.child == old.view.child
            &&& new.view.terminal_at == Some(now)
            &&& new.view.receipt_until matches Some(until) && until.0 == now.0 + retention.0
            &&& new.view.output_until is None
            &&& new.view.manifest is None
            &&& old.view.admitted_at is Some ==> (new.job matches Some(job) && !job.executor_live
                && job.lease_until is None && job.input_live == old.job->0.input_live
                && job.outputs_live == old.job->0.outputs_live && job.release
                == old.job->0.release)
        },
{
}

/// Work under a fence of its own, or under one of a scope above it, ends by that fence as soon as no
/// scope is open below it, and waits as long as one is. Its deadline does not matter then.
pub proof fn law_fence_decides_the_end(
    t: Tables,
    j: int,
    k: int,
    now: Number,
    after: Tables,
    settled: bool,
)
    requires
        t.arranged(),
        0 <= j < t.work.len(),
        !over(t.work[j]),
        t.open_fault(t.work[j].generation, t.work[j].view.work.scope) == Some(
            Fault::Refused(ErrorCode::Cancelled),
        ) || (t.work[j].fence is Some && t.open_fault(
            t.work[j].generation,
            t.work[j].view.work.scope,
        ) is None),
        t.work[j].view.child is Some ==> opened(t, j, k),
        t.settle_step(j, now, after, settled),
    ensures
        settled <==> (t.work[j].view.child is None || t.scopes[k].summary is Some),
        settled ==> after.work[j].view.diagnostic is None && match t.work[j].fence {
            Some(fence) => after.work[j].view.state == fence.outcome,
            None => after.work[j].view.state.0 == State::CANCELLED,
        },
{
    if t.work[j].view.child is Some {
        lemma_opened(t, j, k);
    }
}

/// Work that no fence holds fails once its deadline is reached, whatever became of the scope below it.
/// Before that it goes on, unless a scope below it has closed.
pub proof fn law_deadline_decides_the_end(
    t: Tables,
    j: int,
    now: Number,
    after: Tables,
    settled: bool,
)
    requires
        0 <= j < t.work.len(),
        !over(t.work[j]),
        t.work[j].fence is None,
        t.open_fault(t.work[j].generation, t.work[j].view.work.scope) is None,
        t.settle_step(j, now, after, settled),
    ensures
        t.work[j].view.deadline matches Some(at) && at.0 <= now.0 ==> {
            &&& settled
            &&& after.work[j].view.state.0 == State::FAILED
            &&& after.work[j].view.diagnostic matches Some(d) && d.detail.0@
                == "execution deadline reached"@ && d.code.0
                == ErrorCode::DeadlineExceeded.wire_code()
        },
        !(t.work[j].view.deadline matches Some(at) && at.0 <= now.0) && t.work[j].view.child is None
            ==> !settled && after == t,
{
}

/// A scope that is still open does not decide about the work that it was opened for.
pub proof fn law_open_child_decides_nothing(
    t: Tables,
    j: int,
    k: int,
    now: Number,
    after: Tables,
    settled: bool,
)
    requires
        t.arranged(),
        0 <= j < t.work.len(),
        t.work[j].fence is None,
        t.open_fault(t.work[j].generation, t.work[j].view.work.scope) is None,
        t.work[j].view.deadline matches Some(at) ==> now.0 < at.0,
        opened(t, j, k),
        t.scopes[k].summary is None,
        t.settle_step(j, now, after, settled),
    ensures
        !settled && after == t,
{
    lemma_opened(t, j, k);
}

/// A fence on a scope reaches down: a scope may be changed exactly where it is there, was not
/// cancelled, and the work that it was opened for, if any, neither was nor is being cancelled or
/// skipped and itself stands in a scope that may be changed.
pub proof fn law_fence_reaches_down(t: Tables, k: int)
    requires
        t.arranged(),
        0 <= k < t.scopes.len(),
    ensures
        t.open_fault(t.scopes[k].generation, t.scopes[k].scope) is None <==> {
            &&& !t.scopes[k].cancelled
            &&& t.scopes[k].parent matches Some(parent) ==> {
                &&& parent.scope.0 < t.scopes[k].scope.0
                &&& t.open_fault(t.scopes[k].generation, parent.scope) is None
                &&& exists|j: int|
                    0 <= j < t.work.len() && (#[trigger] t.work[j]).generation
                        == t.scopes[k].generation && t.work[j].view.work == parent
                        && t.work[j].view.state.0 != State::CANCELLING && t.work[j].view.state.0
                        != State::CANCELLED && t.work[j].view.state.0 != State::SKIPPED
            }
        },
        t.scopes[k].cancelled ==> t.open_fault(t.scopes[k].generation, t.scopes[k].scope) == Some(
            Fault::Refused(ErrorCode::Cancelled),
        ),
{
    let generation = t.scopes[k].generation;
    let p = store::is_scope(generation, t.scopes[k].scope);
    assert forall|i: int| 0 <= i < k implies !p(#[trigger] t.scopes[i]) by {
        assert(t.scopes[i].generation == t.scopes[k].generation ==> t.scopes[i].scope
            != t.scopes[k].scope);
    }
    table::lemma_index_unique(t.scopes, p, k);
    if t.scopes[k].parent is Some {
        let parent = t.scopes[k].parent->0;
        let q = store::is_work(generation, parent.scope, parent.entity);
        table::lemma_index_where(t.work, q);
        let at = t.work_at(generation, parent.scope, parent.entity);
        assert forall|j: int| 0 <= j < t.work.len() && (#[trigger] t.work[j]).generation == generation
            && t.work[j].view.work == parent implies j == at by {
            assert(q(t.work[j]));
            if at < j {
                assert(t.work[at].view.work.entity.0 < t.work[j].view.work.entity.0);
            }
        }
    }
}

proof fn lemma_short_text(text: Seq<char>)
    requires
        text == "STRICT child scope contains nonsuccessful work"@ || text
            == "execution deadline reached"@,
    ensures
        encode_utf8(text).len() <= 512,
{
    reveal_strlit("STRICT child scope contains nonsuccessful work");
    reveal_strlit("execution deadline reached");
    assert(is_ascii_chars(text));
    is_ascii_chars_encode_utf8(text);
}

/// A settling step does not fail, as long as the work stands in a scope that is there, the clock is not
/// behind, the time until which the receipt is kept can be represented and the revision be counted on.
pub proof fn law_settling_does_not_fail(t: Tables, j: int, now: Number, fault: Fault)
    requires
        t.well_formed(),
        0 <= j < t.work.len(),
        t.open_fault(t.work[j].generation, t.work[j].view.work.scope) is None || t.open_fault(
            t.work[j].generation,
            t.work[j].view.work.scope,
        ) == Some(Fault::Refused(ErrorCode::Cancelled)),
        exists|i: int|
            0 <= i < t.sessions.len() && (#[trigger] t.sessions[i]).binding.identity.generation
                == t.work[j].generation,
        t.greatest <= now.0,
        t.work[j].revision.0 < MAX_NUMBER,
        now.0 + t.receipt_retention(t.work[j].generation).0 <= MAX_NUMBER,
    ensures
        !t.settle_fails(j, now, fault),
{
    let row = t.work[j];
    let retention = t.receipt_retention(row.generation);
    let p = store::is_session(row.generation);
    table::lemma_index_where(t.sessions, p);
    let i = choose|i: int|
        0 <= i < t.sessions.len() && (#[trigger] t.sessions[i]).binding.identity.generation
            == t.work[j].generation;
    assert(p(t.sessions[i]));
    accounts::lemma_named(t, t.session_at(row.generation));
    accounts::lemma_profiled(t, j);
    if row.view.child is Some {
        table::lemma_index_where(
            t.scopes,
            store::is_scope(row.generation, Number((row.view.child->0).scope.0)),
        );
    }
    if t.due(row, now) matches Ok(Some(_)) {
        let verdict = t.due(row, now)->Ok_0->0;
        assert forall|diagnostic: Option<Diagnostic>| verdict.explains(
            diagnostic,
        ) implies #[trigger] settlement::end_fault(
            row,
            verdict.state,
            diagnostic,
            now,
            retention,
        ) is None by {
            let until = store::later(now, retention)->0;
            let ended = settlement::ended_view(row.view, verdict.state, diagnostic, now, until);
            if diagnostic is Some {
                lemma_short_text(diagnostic->0.detail.0@);
                assert(diagnostic->0.valid());
            }
            assert(ended.rule());
            assert(ended.valid());
        }
    }
}

/// Rows that satisfy both of two predicates are those that satisfy the second among those that
/// satisfy the first.
proof fn lemma_rows_twice<T>(s: Seq<T>, p: spec_fn(T) -> bool, q: spec_fn(T) -> bool, both: spec_fn(T) -> bool)
    requires
        forall|x: T| #[trigger] both(x) == (p(x) && q(x)),
    ensures
        table::rows_where(s, both) == table::rows_where(table::rows_where(s, p), q),
    decreases s.len(),
{
    if s.len() > 0 {
        let front = s.drop_last();
        lemma_rows_twice(front, p, q, both);
        assert(both(s.last()) == (p(s.last()) && q(s.last())));
        if p(s.last()) {
            table::lemma_rows_where_push(table::rows_where(front, p), q, s.last());
        }
    }
}

pub open spec fn ascending(rows: Seq<WorkRow>) -> bool {
    forall|i: int, j: int|
        0 <= i < j < rows.len() ==> (#[trigger] rows[i]).view.work.entity.0 < (
        #[trigger] rows[j]).view.work.entity.0
}

proof fn lemma_rows_ascend(s: Seq<WorkRow>, p: spec_fn(WorkRow) -> bool)
    requires
        forall|i: int, j: int|
            0 <= i < j < s.len() && p(#[trigger] s[i]) && p(#[trigger] s[j])
                ==> s[i].view.work.entity.0 < s[j].view.work.entity.0,
    ensures
        ascending(table::rows_where(s, p)),
    decreases s.len(),
{
    if s.len() > 0 {
        let front = s.drop_last();
        assert forall|i: int, j: int| 0 <= i < j < front.len() && p(#[trigger] front[i]) && p(
            #[trigger] front[j],
        ) implies front[i].view.work.entity.0 < front[j].view.work.entity.0 by {
            assert(front[i] == s[i] && front[j] == s[j]);
        }
        lemma_rows_ascend(front, p);
        let rows = table::rows_where(front, p);
        if p(s.last()) {
            assert forall|i: int| 0 <= i < rows.len() implies (
            #[trigger] rows[i]).view.work.entity.0 < s.last().view.work.entity.0 by {
                let n = table::lemma_rows_where_from(front, p, i);
                assert(front[n] == s[n]);
                assert(s[s.len() - 1] == s.last());
            }
        }
    }
}

/// What stands behind an entity in ascending rows is what is left once the rows up to it are gone.
proof fn lemma_rest(rows: Seq<WorkRow>, after: u64, n: int, q: spec_fn(WorkRow) -> bool)
    requires
        ascending(rows),
        0 <= n <= rows.len(),
        forall|r: WorkRow| #[trigger] q(r) == (r.view.work.entity.0 > after),
        forall|i: int| 0 <= i < n ==> (#[trigger] rows[i]).view.work.entity.0 <= after,
        forall|i: int| n <= i < rows.len() ==> (#[trigger] rows[i]).view.work.entity.0 > after,
    ensures
        table::rows_where(rows, q) == rows.skip(n),
    decreases rows.len(),
{
    if rows.len() > 0 {
        let front = rows.drop_last();
        assert(rows.last() == rows[rows.len() - 1]);
        if n == rows.len() {
            assert forall|i: int| 0 <= i < n - 1 implies (
            #[trigger] front[i]).view.work.entity.0 <= after by {
                assert(front[i] == rows[i]);
            }
            lemma_rest(front, after, n - 1, q);
            assert(!q(rows.last()));
            assert(rows.skip(n) =~= front.skip(n - 1));
        } else {
            assert forall|i: int| 0 <= i < n implies (
            #[trigger] front[i]).view.work.entity.0 <= after by {
                assert(front[i] == rows[i]);
            }
            assert forall|i: int| n <= i < front.len() implies (
            #[trigger] front[i]).view.work.entity.0 > after by {
                assert(front[i] == rows[i]);
            }
            lemma_rest(front, after, n, q);
            assert(q(rows.last()));
            assert(rows.skip(n) =~= front.skip(n).push(rows.last()));
        }
    } else {
        assert(rows.skip(n) =~= Seq::empty());
    }
}

/// A scan has seen the first members of its scope, as many as it says, and what it has gathered is
/// what they give: their identifiers while it hashes, their ends while it counts.
pub open spec fn faithful(t: Tables, scan: Scan) -> bool {
    let members = t.members(scan.identity.generation, scan.scope);
    &&& scan.count <= members.len()
    &&& scan.after.0 == if scan.count == 0 {
        0
    } else {
        members[scan.count - 1].view.work.entity.0
    }
    &&& match scan.sealing {
        Some(progress) => {
            &&& progress.session == scan.identity
            &&& progress.scope == scan.scope
            &&& progress.producer == scan.producer
            &&& progress.parent == scan.parent
            &&& progress.ids.len() == scan.count
            &&& forall|i: int|
                0 <= i < scan.count ==> (#[trigger] progress.ids[i]) == members[i].view.work.entity
        },
        None => {
            &&& counts_are(scan.counts, members.take(scan.count as int))
            &&& scan.leaves.len() == scan.count
            &&& forall|i: int|
                0 <= i < scan.count ==> over(#[trigger] members[i]) && closed_below(
                    t,
                    members[i],
                )
            &&& forall|i: int|
                0 <= i < scan.count ==> leaf_tells(t, members[i], #[trigger] scan.leaves[i])
        },
    }
}

/// A leaf is the digest of how a member ended: which work it is, its end and attempt, what it has
/// published, and what the scope below it came to.
pub open spec fn leaf_tells(t: Tables, row: WorkRow, leaf: Seq<u8>) -> bool {
    exists|l: StatusLeaf|
        {
            &&& leaf == #[trigger] l.leaf_digest()
            &&& l.work == row.view.work
            &&& l.state == row.view.state
            &&& l.attempt == row.view.attempt
            &&& match row.view.manifest {
                Some(m) => l.manifest_digest == Some(labels::digest_of(m.manifest_digest())),
                None => l.manifest_digest is None,
            }
            &&& match row.view.child {
                Some(child) => exists|k: int|
                    {
                        &&& 0 <= k < t.scopes.len()
                        &&& (#[trigger] t.scopes[k]).generation == row.generation
                        &&& t.scopes[k].scope.0 == child.scope.0
                        &&& t.scopes[k].summary is Some
                        &&& l.child_status_root == Some((t.scopes[k].summary->0).status_root)
                    },
                None => l.child_status_root is None,
            }
        }
}

/// No scope that was opened for the work is open.
pub open spec fn closed_below(t: Tables, row: WorkRow) -> bool {
    row.view.child matches Some(child) ==> exists|k: int|
        0 <= k < t.scopes.len() && (#[trigger] t.scopes[k]).generation == row.generation
            && t.scopes[k].scope.0 == child.scope.0 && t.scopes[k].summary is Some
}

/// The members that a scan has not seen yet are those that the next batches look at.
proof fn lemma_batch(t: Tables, scan: Scan)
    requires
        t.arranged(),
        faithful(t, scan),
        forall|j: int|
            0 <= j < t.work.len() ==> (#[trigger] t.work[j]).view.work.entity.0 > 0,
    ensures
        ascending(t.members(scan.identity.generation, scan.scope)),
        t.page_rows(scan.identity.generation, scan.scope, scan.after) == t.members(
            scan.identity.generation,
            scan.scope,
        ).skip(scan.count as int),
{
    let generation = scan.identity.generation;
    let p = store::in_scope(generation, scan.scope);
    let members = t.members(generation, scan.scope);
    let q = |r: WorkRow| r.view.work.entity.0 > scan.after.0;
    lemma_rows_ascend(t.work, p);
    lemma_rows_twice(t.work, p, q, scopes::in_page(generation, scan.scope, scan.after));
    let n = scan.count as int;
    assert forall|i: int| n <= i < members.len() implies (
    #[trigger] members[i]).view.work.entity.0 > scan.after.0 by {
        if n == 0 {
            let j = table::lemma_rows_where_from(t.work, p, i);
            assert(t.work[j] == members[i]);
        } else {
            assert(members[n - 1].view.work.entity.0 < members[i].view.work.entity.0);
        }
    }
    assert forall|i: int| 0 <= i < n implies (#[trigger] members[i]).view.work.entity.0
        <= scan.after.0 by {
        if i < n - 1 {
            assert(members[i].view.work.entity.0 < members[n - 1].view.work.entity.0);
        }
    }
    lemma_rest(members, scan.after.0, n, q);
}

/// A member that was visited was taken in as it is.
proof fn lemma_visit(t: Tables, scan: Scan)
    requires
        t.arranged(),
        faithful(t, scan),
        scan.count < t.members(scan.identity.generation, scan.scope).len(),
    ensures
        ({
            let row = t.members(scan.identity.generation, scan.scope)[scan.count as int];
            &&& t.visit(scan, row) matches Ok(Some(next)) ==> faithful(t, next) && next.count
                == scan.count + 1 && next.identity == scan.identity && next.scope == scan.scope
            &&& t.visit(scan, row) matches Ok(None) ==> !(over(row) && closed_below(t, row))
        }),
{
    reveal(Tables::visit);
    let generation = scan.identity.generation;
    let members = t.members(generation, scan.scope);
    let row = members[scan.count as int];
    let j = table::lemma_rows_where_from(
        t.work,
        store::in_scope(generation, scan.scope),
        scan.count as int,
    );
    assert(row.generation == generation);
    if row.view.child is Some {
        let child = row.view.child->0;
        let p = store::is_scope(generation, Number(child.scope.0));
        table::lemma_index_where(t.scopes, p);
        let k = t.scope_at(generation, Number(child.scope.0));
        if k < t.scopes.len() {
            assert(t.scopes[k].scope == Number(child.scope.0));
        }
        assert forall|m: int| 0 <= m < t.scopes.len() && (#[trigger] t.scopes[m]).generation
            == generation && t.scopes[m].scope.0 == child.scope.0 implies m == k by {
            assert(t.scopes[m].scope == Number(child.scope.0));
            assert(p(t.scopes[m]));
            if k < m {
                assert(t.scopes[k].scope != t.scopes[m].scope);
            }
        }
    }
    if t.visit(scan, row) matches Ok(Some(_)) {
        let next = t.visit(scan, row)->Ok_0->0;
        assert(members.take(next.count as int).drop_last() =~= members.take(scan.count as int));
        assert(members.take(next.count as int).last() == row);
        if scan.sealing is None {
            assert forall|i: int| 0 <= i < next.count implies over(#[trigger] members[i])
                && closed_below(t, members[i]) by {
                if i == scan.count {
                    if row.view.child is Some {
                        let k = t.scope_at(generation, Number((row.view.child->0).scope.0));
                        assert(t.scopes[k].generation == row.generation);
                    }
                }
            }
            let root = if row.view.child is Some {
                let k = t.scope_at(generation, Number((row.view.child->0).scope.0));
                assert(t.scopes[k].generation == row.generation);
                Some((t.scopes[k].summary->0).status_root)
            } else {
                None
            };
            let l = reconcile::leaf_of(row.view, root);
            assert(next.leaves == scan.leaves.push(l.leaf_digest()));
            assert(leaf_tells(t, row, next.leaves[scan.count as int]));
            assert forall|i: int| 0 <= i < next.count implies leaf_tells(
                t,
                members[i],
                #[trigger] next.leaves[i],
            ) by {
                if i < scan.count {
                    assert(next.leaves[i] == scan.leaves[i]);
                }
            }
        }
    }
}

/// What a batch gathers is what its members give.
proof fn lemma_fold(t: Tables, scan: Scan, n: int)
    requires
        t.arranged(),
        faithful(t, scan),
        0 <= n <= t.members(scan.identity.generation, scan.scope).len() - scan.count,
    ensures
        ({
            let members = t.members(scan.identity.generation, scan.scope);
            let rows = members.skip(scan.count as int).take(n);
            t.fold(scan, rows) matches Ok(f) ==> {
                &&& faithful(t, f.scan)
                &&& f.scan.identity == scan.identity && f.scan.scope == scan.scope
                &&& scan.count <= f.scan.count <= scan.count + n
                &&& if f.waiting {
                    f.scan.count < members.len() && !(over(members[f.scan.count as int])
                        && closed_below(t, members[f.scan.count as int]))
                } else {
                    f.scan.count == scan.count + n
                }
            }
        }),
    decreases n,
{
    let members = t.members(scan.identity.generation, scan.scope);
    let rows = members.skip(scan.count as int).take(n);
    if n > 0 {
        lemma_fold(t, scan, n - 1);
        assert(rows.drop_last() =~= members.skip(scan.count as int).take(n - 1));
        assert(rows.last() == members[scan.count + n - 1]);
        if t.fold(scan, rows.drop_last()) matches Ok(_) {
            let f = t.fold(scan, rows.drop_last())->Ok_0;
            if !f.waiting {
                lemma_visit(t, f.scan);
            }
        }
    }
}

/// A scan over a scope that has just been taken up has seen nothing yet.
pub proof fn law_scan_starts_empty(t: Tables, identity: SessionIdentity, row: ScopeRow)
    ensures
        faithful(t, reconcile::first_scan(identity, row)),
        reconcile::first_scan(identity, row).count == 0,
        reconcile::first_scan(identity, row).scope == row.scope,
        reconcile::first_scan(identity, row).declared == row.declared,
        reconcile::first_scan(identity, row).sealing is Some <==> row.seal is None,
{
    let scan = reconcile::first_scan(identity, row);
    let members = t.members(identity.generation, row.scope);
    assert(members.take(0) =~= Seq::empty());
}

/// All members of the scope have come to an end, and so have the scopes below them.
pub open spec fn finished(t: Tables, generation: Id, scope: Number) -> bool {
    let members = t.members(generation, scope);
    forall|i: int|
        0 <= i < members.len() ==> over(#[trigger] members[i]) && closed_below(t, members[i])
}

proof fn lemma_finished(t: Tables, generation: Id, scope: Number, i: int)
    requires
        finished(t, generation, scope),
        0 <= i < t.members(generation, scope).len(),
    ensures
        over(t.members(generation, scope)[i]),
        closed_below(t, t.members(generation, scope)[i]),
{
}

/// Work has a positive identifier.
pub open spec fn numbered(t: Tables) -> bool {
    forall|j: int| 0 <= j < t.work.len() ==> (#[trigger] t.work[j]).view.work.entity.0 > 0
}

/// What a batch over the members comes to. While members are left the scan goes on, true to what it has
/// seen; it waits exactly for a member that is not over or below which a scope is open; a membership
/// that was hashed to the last is sealed by what it is, in order; and a scope closes only once all of
/// its members are over, with a summary that counts them end by end and a root over one leaf for each.
pub proof fn law_scan_tells_the_members(t: Tables, scan: Scan, limit: nat, now: Number)
    requires
        t.arranged(),
        numbered(t),
        faithful(t, scan),
        t.advance(scan, limit, now) is Ok,
    ensures
        ({
            let generation = scan.identity.generation;
            let members = t.members(generation, scan.scope);
            let step = t.advance(scan, limit, now)->Ok_0.0;
            let k = t.scope_at(generation, scan.scope);
            match step {
                Advance::Inactive => t.session_at(generation) >= t.sessions.len()
                    || t.retirement_at(generation) < t.retirements.len(),
                Advance::Stop => t.scopes[k].summary is Some,
                Advance::More(next) => {
                    &&& faithful(t, next)
                    &&& next.count == scan.count + limit
                    &&& next.count < members.len()
                    &&& next.identity == scan.identity
                    &&& next.scope == scan.scope
                },
                Advance::Waiting => exists|i: int|
                    scan.count <= i < members.len() && !(over(#[trigger] members[i])
                        && closed_below(t, members[i])),
                Advance::Sealed(seal) => {
                    &&& scan.sealing is Some
                    &&& t.scopes[k].declared.0 == members.len()
                    &&& seal == labels::digest_of(
                        commitments::seal_digest(
                            scan.identity,
                            scan.scope,
                            t.scopes[k].producer,
                            t.scopes[k].parent,
                            Seq::new(members.len(), |i: int| members[i].view.work.entity),
                        ),
                    )
                    &&& t.scopes[k].seal matches Some(old) ==> old == seal
                },
                Advance::Closed(summary) => {
                    &&& scan.sealing is None
                    &&& finished(t, generation, scan.scope)
                    &&& counts_are(summary.counts, members)
                    &&& summary.declared.0 == members.len()
                    &&& summary.declared == t.scopes[k].declared
                    &&& summary.scope == scan.scope
                    &&& summary.producer == t.scopes[k].producer
                    &&& summary.parent == t.scopes[k].parent
                    &&& Some(summary.seal) == scan.seal
                    &&& summary.closed_at == now
                    &&& exists|leaves: Seq<Seq<u8>>|
                        {
                            &&& summary.status_root == labels::digest_of(
                                #[trigger] commitments::merkle_root(leaves),
                            )
                            &&& leaves.len() == members.len()
                            &&& forall|i: int|
                                0 <= i < members.len() ==> leaf_tells(
                                    t,
                                    members[i],
                                    #[trigger] leaves[i],
                                )
                        }
                },
            }
        }),
{
    reveal(Tables::advance);
    let generation = scan.identity.generation;
    let members = t.members(generation, scan.scope);
    let rows = t.page_rows(generation, scan.scope, scan.after);
    lemma_batch(t, scan);
    let n = scopes::least_len(rows.len(), limit) as int;
    lemma_fold(t, scan, n);
    let folded = t.fold(scan, t.batch(scan, limit));
    if folded is Ok {
        let f = folded->Ok_0;
        lemma_batch(t, f.scan);
        lemma_fold_keeps(t, scan, t.batch(scan, limit));
        assert(members.take(members.len() as int) =~= members);
        if f.scan.count == members.len() && f.scan.sealing is Some {
            assert(f.scan.sealing->0.ids =~= Seq::new(
                members.len(),
                |i: int| members[i].view.work.entity,
            ));
        }
        if f.scan.count == members.len() && f.scan.sealing is None {
            assert(commitments::merkle_root(f.scan.leaves) == commitments::merkle_root(
                f.scan.leaves,
            ));
        }
    }
}

/// A scan stays that of its scope.
proof fn lemma_fold_keeps(t: Tables, scan: Scan, rows: Seq<WorkRow>)
    ensures
        t.fold(scan, rows) matches Ok(f) ==> {
            &&& f.scan.identity == scan.identity
            &&& f.scan.scope == scan.scope
            &&& f.scan.producer == scan.producer
            &&& f.scan.parent == scan.parent
            &&& f.scan.declared == scan.declared
            &&& f.scan.seal == scan.seal
            &&& f.scan.sealing is Some == scan.sealing is Some
            &&& f.scan.sealing is Some ==> f.scan.sealing->0.declared == scan.sealing->0.declared
        },
    decreases rows.len(),
{
    if rows.len() > 0 {
        reveal(Tables::visit);
        lemma_fold_keeps(t, scan, rows.drop_last());
    }
}

/// A scope whose members are all over does not hold its scan up: with room for those that are left, a
/// batch closes it, and with less room it goes on by as many as there is room for. A member that is not
/// over keeps its scope open.
pub proof fn law_finished_scope_closes(t: Tables, scan: Scan, limit: nat, now: Number)
    requires
        t.arranged(),
        numbered(t),
        faithful(t, scan),
        scan.sealing is None,
        t.live(scan.identity.generation),
        t.scope_at(scan.identity.generation, scan.scope) < t.scopes.len(),
        t.scopes[t.scope_at(scan.identity.generation, scan.scope)].summary is None,
        t.advance(scan, limit, now) is Ok,
    ensures
        ({
            let members = t.members(scan.identity.generation, scan.scope);
            let step = t.advance(scan, limit, now)->Ok_0.0;
            if finished(t, scan.identity.generation, scan.scope) {
                if scan.count + limit >= members.len() {
                    step is Closed
                } else {
                    step is More
                }
            } else {
                step is More || step is Waiting
            }
        }),
{
    reveal(Tables::advance);
    law_scan_tells_the_members(t, scan, limit, now);
    let generation = scan.identity.generation;
    let members = t.members(generation, scan.scope);
    let step = t.advance(scan, limit, now)->Ok_0.0;
    if finished(t, generation, scan.scope) && step is Waiting {
        let i = choose|i: int|
            scan.count <= i < members.len() && !(over(#[trigger] members[i]) && closed_below(
                t,
                members[i],
            ));
        lemma_finished(t, generation, scan.scope, i);
    }
    lemma_batch(t, scan);
    let rows = t.page_rows(generation, scan.scope, scan.after);
    lemma_fold(t, scan, scopes::least_len(rows.len(), limit) as int);
    lemma_fold_keeps(t, scan, t.batch(scan, limit));
    let folded = t.fold(scan, t.batch(scan, limit));
    if folded is Ok {
        lemma_batch(t, folded->Ok_0.scan);
    }
}

/// What a scope that closes is given tells how its members ended.
pub proof fn law_closing_is_told(t: Tables, scan: Scan, limit: nat, now: Number, freeze: bool)
    requires
        t.arranged(),
        numbered(t),
        faithful(t, scan),
        t.scope_at(scan.identity.generation, scan.scope) < t.scopes.len(),
        t.advance(scan, limit, now) matches Ok(r) && r.0 is Closed,
    ensures
        ({
            let k = t.scope_at(scan.identity.generation, scan.scope);
            let step = t.advance(scan, limit, now)->Ok_0.0;
            let after = t.advanced(k, freeze, step, now);
            &&& told(after, k)
            &&& after.work == t.work
            &&& after.scopes.len() == t.scopes.len()
            &&& forall|i: int|
                0 <= i < t.scopes.len() && i != k ==> #[trigger] after.scopes[i] == t.scopes[i]
        }),
{
    law_scan_tells_the_members(t, scan, limit, now);
    let generation = scan.identity.generation;
    let p = store::is_scope(generation, scan.scope);
    table::lemma_index_where(t.scopes, p);
    let k = t.scope_at(generation, scan.scope);
    let step = t.advance(scan, limit, now)->Ok_0.0;
    let after = t.advanced(k, freeze, step, now);
    assert(p(t.scopes[k]));
    assert(after.scopes[k].generation == generation && after.scopes[k].scope == scan.scope);
    let members = t.members(generation, scan.scope);
    assert forall|i: int| 0 <= i < members.len() implies over(#[trigger] members[i]) by {
        lemma_finished(t, generation, scan.scope, i);
    }
}

/// The members of a scope that stand behind an entity are its last ones.
pub proof fn lemma_page(t: Tables, generation: Id, scope: Number, behind: Number) -> (n: int)
    requires
        t.arranged(),
    ensures
        0 <= n <= t.members(generation, scope).len(),
        forall|a: int|
            0 <= a < n ==> (#[trigger] t.members(generation, scope)[a]).view.work.entity.0
                <= behind.0,
        forall|a: int|
            n <= a < t.members(generation, scope).len() ==> (#[trigger] t.members(
                generation,
                scope,
            )[a]).view.work.entity.0 > behind.0,
        t.page_rows(generation, scope, behind) == t.members(generation, scope).skip(n),
{
    let p = store::in_scope(generation, scope);
    let q = |r: WorkRow| r.view.work.entity.0 > behind.0;
    let members = t.members(generation, scope);
    lemma_rows_ascend(t.work, p);
    lemma_rows_twice(t.work, p, q, scopes::in_page(generation, scope, behind));
    let n = lemma_split(members, behind.0);
    lemma_rest(members, behind.0, n, q);
    n
}

proof fn lemma_split(rows: Seq<WorkRow>, behind: u64) -> (n: int)
    requires
        ascending(rows),
    ensures
        0 <= n <= rows.len(),
        forall|a: int| 0 <= a < n ==> (#[trigger] rows[a]).view.work.entity.0 <= behind,
        forall|a: int| n <= a < rows.len() ==> (#[trigger] rows[a]).view.work.entity.0 > behind,
    decreases rows.len(),
{
    if rows.len() == 0 {
        0
    } else if rows[rows.len() - 1].view.work.entity.0 <= behind {
        assert forall|a: int| 0 <= a < rows.len() implies (#[trigger] rows[a]).view.work.entity.0
            <= behind by {
            if a < rows.len() - 1 {
                assert(rows[a].view.work.entity.0 < rows[rows.len() - 1].view.work.entity.0);
            }
        }
        rows.len() as int
    } else {
        let front = rows.drop_last();
        let n = lemma_split(front, behind);
        assert forall|a: int| 0 <= a < n implies (#[trigger] rows[a]).view.work.entity.0
            <= behind by {
            assert(front[a] == rows[a]);
        }
        assert forall|a: int| n <= a < rows.len() implies (#[trigger] rows[a]).view.work.entity.0
            > behind by {
            if a < front.len() {
                assert(front[a] == rows[a]);
            }
        }
        n
    }
}

/// The next scope is the one with the greatest row number below where the pass stands, of a session that
/// is there and not retired.
pub proof fn law_latest_scope_is_next(t: Tables, before: Option<u64>)
    requires
        t.arranged(),
    ensures
        match t.next_scope(before) {
            None => forall|k: int|
                0 <= k < t.scopes.len() && t.live((#[trigger] t.scopes[k]).generation) ==> (
                before matches Some(b) && t.scopes[k].row >= b),
            Some(n) => {
                &&& 0 <= n < t.scopes.len()
                &&& t.live(t.scopes[n].generation)
                &&& before matches Some(b) ==> t.scopes[n].row < b
                &&& forall|k: int|
                    0 <= k < t.scopes.len() && t.live((#[trigger] t.scopes[k]).generation) && (
                    before matches Some(b) ==> t.scopes[k].row < b) ==> t.scopes[k].row
                        <= t.scopes[n].row
            },
        },
{
    let p = t.scannable(before);
    release::lemma_latest_one(t.scopes, p);
    let rows = table::latest(t.scopes, p, 1);
    if rows.len() > 0 {
        let n = rows[0];
        assert forall|k: int|
            0 <= k < t.scopes.len() && t.live((#[trigger] t.scopes[k]).generation) && (
            before matches Some(b) ==> t.scopes[k].row < b) implies t.scopes[k].row
            <= t.scopes[n].row by {
            assert(p(t.scopes[k]));
            if k < n {
                assert(t.scopes[k].row < t.scopes[n].row);
            }
        }
    } else {
        assert forall|k: int|
            0 <= k < t.scopes.len() && t.live((#[trigger] t.scopes[k]).generation) implies (
        before matches Some(b) && t.scopes[k].row >= b) by {
            assert(!p(t.scopes[k]));
        }
    }
}

/// What is done about the next scope. One that is closed is passed over, and so is one whose membership
/// may still grow; one under a fence is frozen; one whose membership is final is scanned from its first
/// member on, to be sealed first where it has no seal.
pub proof fn law_scope_is_taken_up(t: Tables, before: Option<u64>, identity: SessionIdentity)
    requires
        t.next_scope(before) is Some,
        t.pick(before, identity) is Ok,
    ensures
        ({
            let row = t.scopes[t.next_scope(before)->0];
            let (at, freeze, scan) = t.pick(before, identity)->Ok_0;
            let fenced = t.open_fault(row.generation, row.scope) == Some(
                Fault::Refused(ErrorCode::Cancelled),
            );
            &&& at == Some(row.row)
            &&& row.summary is Some ==> !freeze && scan is None
            &&& row.summary is None ==> {
                &&& freeze <==> !row.cancelled && fenced
                &&& scan is Some <==> row.seal is Some || row.cancelled || freeze
                &&& scan matches Some(s) ==> {
                    &&& s.identity == identity
                    &&& s.scope == row.scope
                    &&& s.declared == row.declared
                    &&& s.producer == row.producer
                    &&& s.parent == row.parent
                    &&& s.count == 0
                    &&& s.after.0 == 0
                    &&& s.seal == row.seal
                    &&& s.sealing is Some <==> row.seal is None
                }
            }
        }),
{
}

/// What a step over a scope leaves: a scan that goes on where there are more members, and one that
/// starts over, now for the ends, where the membership was sealed; the seal or the summary in the row of
/// the scope; and one more in the count of what was done.
pub proof fn law_scan_step_is_counted(
    t: Tables,
    here: ScopeOutcome,
    scan: Scan,
    freeze: bool,
    limit: nat,
    now: Number,
)
    requires
        t.arranged(),
        0 <= t.scope_at(scan.identity.generation, scan.scope) < t.scopes.len(),
        t.scan_step(here, scan, freeze, limit, now) is Ok,
    ensures
        ({
            let k = t.scope_at(scan.identity.generation, scan.scope);
            let o = t.scan_step(here, scan, freeze, limit, now)->Ok_0;
            let (step, inspected) = t.advance(scan, limit, now)->Ok_0;
            let new = o.tables.scopes[k];
            match step {
                Advance::Inactive => o == (ScopeOutcome { scope_before: None, ..here }),
                Advance::Stop => o == here,
                _ => {
                    &&& o.inspected == inspected
                    &&& o.scope_before == here.scope_before
                    &&& o.tables.work == t.work
                    &&& o.tables.sessions == t.sessions
                    &&& o.tables.scopes.len() == t.scopes.len()
                    &&& forall|i: int|
                        0 <= i < t.scopes.len() && i != k ==> #[trigger] o.tables.scopes[i]
                            == t.scopes[i]
                    &&& new.cancelled == (t.scopes[k].cancelled || freeze)
                    &&& new.revoked == t.scopes[k].revoked
                    &&& new.declared == t.scopes[k].declared
                    &&& o.frozen == if freeze {
                        1nat
                    } else {
                        0nat
                    }
                    &&& match step {
                        Advance::More(next) => o.scan == Some(next) && new.seal == t.scopes[k].seal
                            && new.summary == t.scopes[k].summary && o.sealed == 0 && o.closed == 0,
                        Advance::Sealed(seal) => {
                            &&& new.seal == Some(seal)
                            &&& new.summary == t.scopes[k].summary
                            &&& o.closed == 0
                            &&& o.sealed == if t.scopes[k].seal is None {
                                1nat
                            } else {
                                0nat
                            }
                            &&& o.scan matches Some(s) && s.count == 0 && s.sealing is None
                                && s.seal == Some(seal) && s.scope == t.scopes[k].scope
                                && s.identity == scan.identity
                        },
                        Advance::Closed(summary) => {
                            &&& new.summary == Some(summary)
                            &&& new.seal == t.scopes[k].seal
                            &&& o.scan is None
                            &&& o.closed == 1
                            &&& o.sealed == 0
                            &&& o.tables.greatest == now.0
                        },
                        _ => o.scan is None && new.seal == t.scopes[k].seal && new.summary
                            == t.scopes[k].summary && o.sealed == 0 && o.closed == 0,
                    }
                },
            }
        }),
{
}

/// The pass over the work looks at the latest rows below where it stands, of sessions that are there and
/// not retired, whatever became of the work.
pub proof fn law_latest_work_is_visited(t: Tables, before: Option<u64>, limit: nat, j: int)
    requires
        0 <= j < t.work.len(),
        t.live(t.work[j].generation),
        before matches Some(b) ==> t.work[j].row < b,
        table::latest(t.work, t.visitable(before), limit).len() < limit,
    ensures
        table::latest(t.work, t.visitable(before), limit).contains(j),
{
    lemma_latest_contains(t.work, t.visitable(before), limit, j);
}

proof fn lemma_latest_contains<T>(s: Seq<T>, p: spec_fn(T) -> bool, n: nat, j: int)
    requires
        0 <= j < s.len(),
        p(s[j]),
        table::latest(s, p, n).len() < n,
    ensures
        table::latest(s, p, n).contains(j),
    decreases s.len(),
{
    let front = s.drop_last();
    if p(s.last()) {
        let rest = table::latest(front, p, (n - 1) as nat);
        assert(table::latest(s, p, n) == seq![s.len() - 1] + rest);
        if j == s.len() - 1 {
            assert(table::latest(s, p, n)[0] == j);
        } else {
            assert(front[j] == s[j]);
            lemma_latest_contains(front, p, (n - 1) as nat, j);
            let m = choose|m: int| 0 <= m < rest.len() && rest[m] == j;
            assert(table::latest(s, p, n)[m + 1] == j);
        }
    } else {
        assert(front[j] == s[j]);
        lemma_latest_contains(front, p, n, j);
    }
}

} // verus!
