//! What every transition keeps: scopes count their members, and views keep to the profile of their
//! session.

use super::super::numbers::{Id, Number};
use super::super::wire::Wire;
use super::store::{self, ScopeRow, SessionRow, Tables, WorkRow};
use super::table;
use vstd::prelude::*;

verus! {

/// The same sessions of the same owners, of which none that retires goes on.
pub open spec fn same_sessions(t: Tables, after: Tables) -> bool {
    &&& after.owners == t.owners
    &&& after.sessions.len() == t.sessions.len()
    &&& forall|i: int|
        0 <= i < t.sessions.len() ==> (#[trigger] t.sessions[i]).binding
            == after.sessions[i].binding && (t.sessions[i].retiring ==> after.sessions[i].retiring)
}

/// The same work, whatever became of it.
pub open spec fn same_work(t: Tables, after: Tables) -> bool {
    &&& after.work.len() == t.work.len()
    &&& forall|j: int|
        0 <= j < t.work.len() ==> (#[trigger] t.work[j]).generation == after.work[j].generation
            && t.work[j].view.work == after.work[j].view.work
}

/// The same scope with the same number declared; its summary is kept, or adds up.
pub open spec fn same_scope(a: ScopeRow, b: ScopeRow) -> bool {
    &&& a.generation == b.generation
    &&& a.scope == b.scope
    &&& a.producer == b.producer
    &&& a.declared == b.declared
    &&& b.summary == a.summary || (b.summary matches Some(s) && s.scope == b.scope && s.valid())
}

pub open spec fn same_scopes(t: Tables, after: Tables) -> bool {
    &&& after.scopes.len() == t.scopes.len()
    &&& forall|k: int|
        0 <= k < t.scopes.len() ==> same_scope(#[trigger] t.scopes[k], after.scopes[k])
}

/// What the accounts say of one unit of work.
pub proof fn lemma_profiled(t: Tables, j: int)
    requires
        t.accounted(),
        0 <= j < t.work.len(),
    ensures
        t.profiled(t.work[j]),
{
    reveal(Tables::accounted);
}

/// What the accounts say of one scope.
pub proof fn lemma_counted(t: Tables, k: int)
    requires
        t.accounted(),
        0 <= k < t.scopes.len(),
    ensures
        t.counted(t.scopes[k]),
{
    reveal(Tables::accounted);
}

/// What the accounts say of one session.
pub proof fn lemma_named(t: Tables, i: int)
    requires
        t.accounted(),
        0 <= i < t.sessions.len(),
    ensures
        t.named(t.sessions[i]),
{
    reveal(Tables::accounted);
}

/// As many rows satisfy the predicate.
pub proof fn lemma_rows_as_many<T>(s: Seq<T>, u: Seq<T>, p: spec_fn(T) -> bool)
    requires
        s.len() == u.len(),
        forall|i: int| 0 <= i < s.len() ==> p(#[trigger] s[i]) == p(u[i]),
    ensures
        table::rows_where(s, p).len() == table::rows_where(u, p).len(),
    decreases s.len(),
{
    if s.len() > 0 {
        assert forall|i: int| 0 <= i < s.len() - 1 implies p(#[trigger] s.drop_last()[i]) == p(
            u.drop_last()[i],
        ) by {
            assert(s.drop_last()[i] == s[i]);
        }
        lemma_rows_as_many(s.drop_last(), u.drop_last(), p);
        assert(p(s[s.len() - 1]) == p(u[s.len() - 1]));
    }
}

pub proof fn lemma_session_kept(t: Tables, after: Tables, generation: Id)
    requires
        same_sessions(t, after),
    ensures
        after.session_at(generation) == t.session_at(generation),
        0 <= t.session_at(generation) <= t.sessions.len(),
        after.active(generation) ==> t.active(generation),
        t.session_at(generation) < t.sessions.len() ==> t.sessions[t.session_at(
            generation,
        )].binding.results == after.sessions[t.session_at(generation)].binding.results,
{
    let p = store::is_session(generation);
    table::lemma_index_alike(t.sessions, p, after.sessions);
    table::lemma_index_where(t.sessions, p);
    if t.session_at(generation) < t.sessions.len() {
        assert(t.sessions[t.session_at(generation)].binding.results
            == after.sessions[t.session_at(generation)].binding.results);
    }
}

/// Work stays housed where the scopes stay, and where new ones are of another session.
proof fn lemma_housed_stays(t: Tables, after: Tables, row: WorkRow)
    requires
        t.housed(row),
        after.scopes.len() >= t.scopes.len(),
        forall|k: int|
            0 <= k < t.scopes.len() ==> (#[trigger] t.scopes[k]).generation
                == after.scopes[k].generation && t.scopes[k].scope == after.scopes[k].scope
                && t.scopes[k].producer == after.scopes[k].producer,
        forall|k: int|
            t.scopes.len() <= k < after.scopes.len() ==> (#[trigger] after.scopes[k]).generation
                != row.generation,
    ensures
        after.housed(row),
{
    lemma_scope_stays(t, after, row.generation, row.view.work.scope);
    if row.view.child is Some {
        lemma_scope_stays(t, after, row.generation, Number((row.view.child->0).scope.0));
    }
}

proof fn lemma_scope_stays(t: Tables, after: Tables, generation: Id, scope: Number)
    requires
        after.scopes.len() >= t.scopes.len(),
        forall|k: int|
            0 <= k < t.scopes.len() ==> (#[trigger] t.scopes[k]).generation
                == after.scopes[k].generation && t.scopes[k].scope == after.scopes[k].scope
                && t.scopes[k].producer == after.scopes[k].producer,
        forall|k: int|
            t.scopes.len() <= k < after.scopes.len() ==> (#[trigger] after.scopes[k]).generation
                != generation,
    ensures
        ({
            let k = t.scope_at(generation, scope);
            let m = after.scope_at(generation, scope);
            &&& k < t.scopes.len() <==> m < after.scopes.len()
            &&& k < t.scopes.len() ==> m == k && 0 <= k && after.scopes[m].producer
                == t.scopes[k].producer
        }),
{
    let p = store::is_scope(generation, scope);
    let k = t.scope_at(generation, scope);
    table::lemma_index_where(t.scopes, p);
    assert forall|j: int| 0 <= j < k implies !p(#[trigger] after.scopes[j]) by {
        assert(!p(t.scopes[j]));
    }
    if k < t.scopes.len() {
        assert(p(t.scopes[k]));
        table::lemma_index_unique(after.scopes, p, k);
    } else {
        assert forall|j: int| 0 <= j < after.scopes.len() implies !p(#[trigger] after.scopes[j]) by {
            if j < t.scopes.len() {
                assert(!p(t.scopes[j]));
            }
        }
        table::lemma_index_unique(after.scopes, p, after.scopes.len() as int);
    }
}

/// Changes to rows that stay where they are keep the accounts, where new views keep to the profile.
pub proof fn lemma_rows_stay(t: Tables, after: Tables)
    requires
        t.accounted(),
        after.last_generation == t.last_generation,
        after.greatest >= t.greatest,
        same_sessions(t, after),
        same_work(t, after),
        same_scopes(t, after),
        forall|j: int|
            0 <= j < t.work.len() ==> #[trigger] after.work[j] == t.work[j] || t.profiled(after.work[j]),
    ensures
        after.accounted(),
{
    reveal(Tables::accounted);
    assert forall|i: int, j: int| 0 <= i < j < after.sessions.len() implies (
    #[trigger] after.sessions[i]).binding.identity.generation.0 < (
    #[trigger] after.sessions[j]).binding.identity.generation.0 by {
        assert(t.sessions[i].binding.identity.generation.0
            < t.sessions[j].binding.identity.generation.0);
    }
    assert forall|i: int| 0 <= i < after.sessions.len() implies after.named(
        #[trigger] after.sessions[i],
    ) by {
        assert(t.named(t.sessions[i]));
        assert(t.sessions[i].binding == after.sessions[i].binding);
    }
    assert forall|k: int| 0 <= k < after.scopes.len() implies after.counted(
        #[trigger] after.scopes[k],
    ) by {
        let row = t.scopes[k];
        assert(t.counted(row));
        assert(same_scope(t.scopes[k], after.scopes[k]));
        lemma_session_kept(t, after, row.generation);
        let p = store::in_scope(row.generation, row.scope);
        assert forall|j: int| 0 <= j < t.work.len() implies p(#[trigger] t.work[j]) == p(
            after.work[j],
        ) by {}
        lemma_rows_as_many(t.work, after.work, p);
    }
    assert forall|j: int| 0 <= j < after.work.len() implies after.profiled(
        #[trigger] after.work[j],
    ) by {
        assert(t.profiled(t.work[j]));
        assert(after.work[j] == t.work[j] || t.profiled(after.work[j]));
        lemma_session_kept(t, after, after.work[j].generation);
        assert forall|k: int| 0 <= k < t.scopes.len() implies (#[trigger] t.scopes[k]).producer
            == after.scopes[k].producer && t.scopes[k].generation == after.scopes[k].generation
            && t.scopes[k].scope == after.scopes[k].scope by {
            assert(same_scope(t.scopes[k], after.scopes[k]));
        }
        lemma_housed_stays(t, after, after.work[j]);
    }
}

/// New members are counted where they were declared.
pub proof fn lemma_members_join(
    t: Tables,
    after: Tables,
    k: int,
    rows: Seq<WorkRow>,
)
    requires
        t.accounted(),
        after.last_generation == t.last_generation,
        after.greatest >= t.greatest,
        same_sessions(t, after),
        0 <= k < t.scopes.len(),
        forall|i: int, j: int|
            0 <= i < j < t.scopes.len() && (#[trigger] t.scopes[i]).generation == (
            #[trigger] t.scopes[j]).generation ==> t.scopes[i].scope != t.scopes[j].scope,
        after.work == t.work + rows,
        after.scopes == t.scopes.update(k, after.scopes[k]),
        after.scopes[k].generation == t.scopes[k].generation,
        after.scopes[k].scope == t.scopes[k].scope,
        after.scopes[k].producer == t.scopes[k].producer,
        after.scopes[k].declared.0 == t.scopes[k].declared.0 + rows.len(),
        after.scopes[k].summary == t.scopes[k].summary || (after.scopes[k].summary matches Some(s)
            && s.scope == t.scopes[k].scope && s.valid()),
        forall|i: int|
            0 <= i < rows.len() ==> (#[trigger] rows[i]).generation == t.scopes[k].generation
                && rows[i].view.work.scope == t.scopes[k].scope && t.profiled(rows[i]),
    ensures
        after.accounted(),
{
    reveal(Tables::accounted);
    let home = t.scopes[k];
    assert forall|i: int, j: int| 0 <= i < j < after.sessions.len() implies (
    #[trigger] after.sessions[i]).binding.identity.generation.0 < (
    #[trigger] after.sessions[j]).binding.identity.generation.0 by {
        assert(t.sessions[i].binding.identity.generation.0
            < t.sessions[j].binding.identity.generation.0);
    }
    assert forall|i: int| 0 <= i < after.sessions.len() implies after.named(
        #[trigger] after.sessions[i],
    ) by {
        assert(t.named(t.sessions[i]));
        assert(t.sessions[i].binding == after.sessions[i].binding);
    }
    assert forall|m: int| 0 <= m < after.scopes.len() implies after.counted(
        #[trigger] after.scopes[m],
    ) by {
        let row = t.scopes[m];
        assert(t.counted(row));
        lemma_session_kept(t, after, row.generation);
        if m == k {
            lemma_rows_join(t.work, rows, store::in_scope(home.generation, home.scope), true);
        } else {
            assert(after.scopes[m] == row);
            assert(t.scopes[m].generation == t.scopes[k].generation ==> t.scopes[m].scope
                != t.scopes[k].scope);
            lemma_rows_join(t.work, rows, store::in_scope(row.generation, row.scope), false);
        }
    }
    assert forall|j: int| 0 <= j < after.work.len() implies after.profiled(
        #[trigger] after.work[j],
    ) by {
        if j < t.work.len() {
            assert(after.work[j] == t.work[j]);
            assert(t.profiled(t.work[j]));
        } else {
            assert(after.work[j] == rows[j - t.work.len()]);
        }
        lemma_session_kept(t, after, after.work[j].generation);
        lemma_housed_stays(t, after, after.work[j]);
    }
}

/// Rows that all satisfy the predicate, or none of which does, join others.
proof fn lemma_rows_join<T>(s: Seq<T>, more: Seq<T>, p: spec_fn(T) -> bool, all: bool)
    requires
        forall|i: int| 0 <= i < more.len() ==> p(#[trigger] more[i]) == all,
    ensures
        table::rows_where(s + more, p).len() == table::rows_where(s, p).len() + if all {
            more.len() as int
        } else {
            0
        },
    decreases more.len(),
{
    if more.len() == 0 {
        assert(s + more =~= s);
    } else {
        let front = more.drop_last();
        assert forall|i: int| 0 <= i < front.len() implies p(#[trigger] front[i]) == all by {
            assert(front[i] == more[i]);
        }
        lemma_rows_join(s, front, p, all);
        assert(s + more =~= (s + front).push(more.last()));
        assert(p(more[more.len() - 1]) == all);
        table::lemma_rows_where_push(s + front, p, more.last());
    }
}

/// A session is found among the sessions where it is.
proof fn lemma_session_found(t: Tables, i: int)
    requires
        t.accounted(),
        0 <= i < t.sessions.len(),
    ensures
        t.session_at(t.sessions[i].binding.identity.generation) == i,
{
    reveal(Tables::accounted);
    let p = store::is_session(t.sessions[i].binding.identity.generation);
    assert forall|j: int| 0 <= j < i implies !p(#[trigger] t.sessions[j]) by {}
    table::lemma_index_unique(t.sessions, p, i);
}

/// A session that was taken out is not found again.
pub proof fn lemma_session_gone(t: Tables, i: int)
    requires
        t.accounted(),
        0 <= i < t.sessions.len(),
    ensures
        table::index_where(
            t.sessions.remove(i),
            store::is_session(t.sessions[i].binding.identity.generation),
        ) == t.sessions.len() - 1,
{
    reveal(Tables::accounted);
    let p = store::is_session(t.sessions[i].binding.identity.generation);
    let rest = t.sessions.remove(i);
    assert forall|j: int| 0 <= j < rest.len() implies !p(#[trigger] rest[j]) by {
        let old = if j < i {
            j
        } else {
            j + 1
        };
        assert(rest[j] == t.sessions[old]);
    }
    table::lemma_index_unique(rest, p, rest.len() as int);
}

/// A new session has one scope, which has no member.
pub proof fn lemma_session_joins(t: Tables, after: Tables, session: SessionRow, root: ScopeRow)
    requires
        t.accounted(),
        after.sessions == t.sessions.push(session),
        after.scopes == t.scopes.push(root),
        after.work == t.work,
        session.binding.identity.generation == root.generation,
        after.named(session),
        forall|owner: Seq<char>| #[trigger]
            after.last_creation(owner) >= t.last_creation(owner),
        after.greatest >= t.greatest,
        root.generation.0 > t.last_generation,
        after.last_generation == root.generation.0,
        root.declared.0 == 0,
        root.summary is None,
        forall|k: int|
            0 <= k < t.scopes.len() ==> (#[trigger] t.scopes[k]).generation.0 <= t.last_generation,
        forall|j: int|
            0 <= j < t.work.len() ==> (#[trigger] t.work[j]).generation.0 <= t.last_generation,
    ensures
        after.accounted(),
{
    reveal(Tables::accounted);
    let n = t.sessions.len();
    assert forall|i: int| 0 <= i < after.sessions.len() implies after.named(
        #[trigger] after.sessions[i],
    ) && (i < n ==> after.sessions[i] == t.sessions[i]) by {
        if i < n {
            assert(t.named(t.sessions[i]));
            assert(after.last_creation(t.sessions[i].binding.identity.owner.0@)
                >= t.last_creation(t.sessions[i].binding.identity.owner.0@));
        }
    }
    assert forall|i: int, j: int| 0 <= i < j < after.sessions.len() implies (
    #[trigger] after.sessions[i]).binding.identity.generation.0 < (
    #[trigger] after.sessions[j]).binding.identity.generation.0 by {
        assert(t.named(t.sessions[i]));
        if j < n {
            assert(t.sessions[i].binding.identity.generation.0
                < t.sessions[j].binding.identity.generation.0);
        }
    }
    assert forall|k: int| 0 <= k < after.scopes.len() implies after.counted(
        #[trigger] after.scopes[k],
    ) by {
        if k < t.scopes.len() {
            assert(after.scopes[k] == t.scopes[k]);
            assert(t.counted(t.scopes[k]));
            lemma_old_session(t, after, session, t.scopes[k].generation);
        } else {
            let p = store::in_scope(root.generation, root.scope);
            assert forall|j: int| 0 <= j < t.work.len() implies p(#[trigger] t.work[j]) == false by {}
            let none: Seq<WorkRow> = Seq::empty();
            lemma_rows_join(none, t.work, p, false);
            assert(none + t.work =~= t.work);
        }
    }
    assert forall|j: int| 0 <= j < after.work.len() implies after.profiled(
        #[trigger] after.work[j],
    ) by {
        assert(t.profiled(t.work[j]));
        lemma_housed_stays(t, after, t.work[j]);
        lemma_old_session(t, after, session, t.work[j].generation);
    }
}

pub proof fn lemma_old_session(t: Tables, after: Tables, session: SessionRow, generation: Id)
    requires
        after.sessions == t.sessions.push(session),
        session.binding.identity.generation != generation,
    ensures
        t.session_at(generation) < t.sessions.len() ==> after.session_at(generation) == t.session_at(
            generation,
        ) && after.sessions[t.session_at(generation)] == t.sessions[t.session_at(generation)],
        t.session_at(generation) >= t.sessions.len() ==> after.session_at(generation)
            >= after.sessions.len(),
{
    let p = store::is_session(generation);
    table::lemma_index_where(t.sessions, p);
    let k = t.session_at(generation);
    assert forall|j: int| 0 <= j < k implies !p(#[trigger] after.sessions[j]) by {
        assert(!p(t.sessions[j]));
    }
    if k < t.sessions.len() {
        table::lemma_index_unique(after.sessions, p, k);
    } else {
        assert forall|j: int| 0 <= j < after.sessions.len() implies !p(
            #[trigger] after.sessions[j],
        ) by {
            if j < t.sessions.len() {
                assert(!p(t.sessions[j]));
            }
        }
        table::lemma_index_unique(after.sessions, p, after.sessions.len() as int);
    }
}

/// Work of a session that retires may go.
pub proof fn lemma_work_leaves(t: Tables, after: Tables, i: int)
    requires
        t.accounted(),
        0 <= i < t.work.len(),
        !t.active(t.work[i].generation),
        after == (Tables { work: t.work.remove(i), ..t }),
    ensures
        after.accounted(),
{
    reveal(Tables::accounted);
    assert forall|i: int| 0 <= i < after.sessions.len() implies after.named(
        #[trigger] after.sessions[i],
    ) by {
        assert(t.named(t.sessions[i]));
    }
    assert forall|k: int| 0 <= k < after.scopes.len() implies after.counted(
        #[trigger] after.scopes[k],
    ) by {
        let row = t.scopes[k];
        assert(t.counted(row));
        if t.active(row.generation) {
            let p = store::in_scope(row.generation, row.scope);
            lemma_row_removed(t.work, i, p);
        }
    }
    assert forall|j: int| 0 <= j < after.work.len() implies after.profiled(
        #[trigger] after.work[j],
    ) by {
        let old = if j < i {
            j
        } else {
            j + 1
        };
        assert(after.work[j] == t.work[old]);
        assert(t.profiled(t.work[old]));
        lemma_housed_stays(t, after, t.work[old]);
    }
}

/// A row that does not satisfy the predicate is not missed.
proof fn lemma_row_removed<T>(s: Seq<T>, i: int, p: spec_fn(T) -> bool)
    requires
        0 <= i < s.len(),
        !p(s[i]),
    ensures
        table::rows_where(s.remove(i), p) == table::rows_where(s, p),
    decreases s.len(),
{
    let front = s.drop_last();
    if i == s.len() - 1 {
        assert(s.remove(i) =~= front);
    } else {
        lemma_row_removed(front, i, p);
        assert(s.remove(i) =~= front.remove(i).push(s.last()));
        assert(s =~= front.push(s.last()));
        table::lemma_rows_where_push(front.remove(i), p, s.last());
        table::lemma_rows_where_push(front, p, s.last());
    }
}

/// A scope may go, and with the last one its session.
pub proof fn lemma_scope_leaves(t: Tables, after: Tables, k: int)
    requires
        t.accounted(),
        0 <= k < t.scopes.len(),
        forall|j: int|
            0 <= j < t.work.len() ==> (#[trigger] t.work[j]).generation != t.scopes[k].generation,
        after == (Tables { scopes: t.scopes.remove(k), ..t }),
    ensures
        after.accounted(),
{
    reveal(Tables::accounted);
    assert forall|i: int| 0 <= i < after.sessions.len() implies after.named(
        #[trigger] after.sessions[i],
    ) by {
        assert(t.named(t.sessions[i]));
    }
    assert forall|m: int| 0 <= m < after.scopes.len() implies after.counted(
        #[trigger] after.scopes[m],
    ) by {
        let old = if m < k {
            m
        } else {
            m + 1
        };
        assert(after.scopes[m] == t.scopes[old]);
        assert(t.counted(t.scopes[old]));
    }
    assert forall|j: int| 0 <= j < after.work.len() implies after.profiled(
        #[trigger] after.work[j],
    ) by {
        let row = t.work[j];
        assert(t.profiled(row));
        table::lemma_found_after_removal(
            t.scopes,
            k,
            store::is_scope(row.generation, row.view.work.scope),
        );
        if row.view.child is Some {
            table::lemma_found_after_removal(
                t.scopes,
                k,
                store::is_scope(row.generation, Number((row.view.child->0).scope.0)),
            );
        }
    }
}

/// A session may go.
pub proof fn lemma_session_leaves(t: Tables, after: Tables, i: int)
    requires
        t.accounted(),
        0 <= i < t.sessions.len(),
        after.sessions == t.sessions.remove(i),
        after.scopes == t.scopes,
        after.work == t.work,
        after.last_generation == t.last_generation,
        after.owners == t.owners,
        after.greatest == t.greatest,
    ensures
        after.accounted(),
{
    assert forall|m: int| 0 <= m < after.sessions.len() implies #[trigger] after.sessions[m]
        == t.sessions[if m < i {
        m
    } else {
        m + 1
    }] by {}
    assert forall|generation: Id| #[trigger]
        after.session_at(generation) < after.sessions.len() implies t.session_at(generation)
        < t.sessions.len() && after.sessions[after.session_at(generation)]
        == t.sessions[t.session_at(generation)] by {
        let p = store::is_session(generation);
        table::lemma_index_where(after.sessions, p);
        let m = after.session_at(generation);
        let old = if m < i {
            m
        } else {
            m + 1
        };
        assert(after.sessions[m] == t.sessions[old]);
        lemma_session_found(t, old);
    }
    reveal(Tables::accounted);
    assert forall|a: int, b: int| 0 <= a < b < after.sessions.len() implies (
    #[trigger] after.sessions[a]).binding.identity.generation.0 < (
    #[trigger] after.sessions[b]).binding.identity.generation.0 by {
        let x = if a < i {
            a
        } else {
            a + 1
        };
        let y = if b < i {
            b
        } else {
            b + 1
        };
        assert(t.sessions[x].binding.identity.generation.0
            < t.sessions[y].binding.identity.generation.0);
    }
    assert forall|m: int| 0 <= m < after.sessions.len() implies after.named(
        #[trigger] after.sessions[m],
    ) by {
        let old = if m < i {
            m
        } else {
            m + 1
        };
        assert(t.named(t.sessions[old]));
    }
    assert forall|k: int| 0 <= k < after.scopes.len() implies after.counted(
        #[trigger] after.scopes[k],
    ) by {
        assert(t.counted(t.scopes[k]));
        if after.active(t.scopes[k].generation) {
            assert(after.session_at(t.scopes[k].generation) < after.sessions.len());
        }
    }
    assert forall|j: int| 0 <= j < after.work.len() implies after.profiled(
        #[trigger] after.work[j],
    ) by {
        assert(t.profiled(t.work[j]));
        lemma_housed_stays(t, after, t.work[j]);
    }
}

} // verus!
