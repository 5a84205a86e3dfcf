//! The test of tables that were read back from storage.

use super::super::error::MAX_NUMBER;
use super::super::numbers::{Number, State};
use super::super::wire::Wire;
use super::store::{self, AuthorityStore, ScopeRow, Tables, WorkRow};
use vstd::prelude::*;

verus! {

/// The one unit of work may stand before the other.
spec fn work_before(a: WorkRow, b: WorkRow) -> bool {
    &&& a.row < b.row
    &&& a.generation == b.generation && a.view.work.scope == b.view.work.scope
        ==> a.view.work.entity.0 < b.view.work.entity.0
}

/// The one scope may stand before the other.
spec fn scope_before(a: ScopeRow, b: ScopeRow) -> bool {
    &&& a.row < b.row
    &&& a.generation == b.generation ==> a.scope != b.scope
}

/// The work lies below what the scope has declared, where it is a member.
spec fn declared_in(work: WorkRow, scope: ScopeRow) -> bool {
    work.generation == scope.generation && work.view.work.scope == scope.scope
        ==> work.view.work.entity.0 <= scope.last_entity
}

/// What is tested of one unit of work.
spec fn work_fits(t: Tables, j: int) -> bool {
    let row = t.work[j];
    &&& row.generation.0 <= t.last_generation
    &&& t.profiled(row)
    &&& forall|i: int| 0 <= i < j ==> work_before(#[trigger] t.work[i], row)
    &&& forall|k: int| 0 <= k < t.scopes.len() ==> declared_in(row, #[trigger] t.scopes[k])
}

/// What is tested of one scope.
spec fn scope_fits(t: Tables, k: int) -> bool {
    let row = t.scopes[k];
    &&& row.generation.0 <= t.last_generation
    &&& t.counted(row)
    &&& store::closed_sealed(row)
    &&& forall|i: int| 0 <= i < k ==> scope_before(#[trigger] t.scopes[i], row)
}

/// What is tested of one session.
spec fn session_fits(t: Tables, i: int) -> bool {
    let row = t.sessions[i];
    &&& t.named(row)
    &&& i > 0 ==> t.sessions[i - 1].binding.identity.generation.0
        < row.binding.identity.generation.0
}

/// Tables are well formed exactly where every row fits.
proof fn lemma_rows_fit(t: Tables)
    ensures
        t.well_formed() <==> {
            &&& forall|j: int| 0 <= j < t.work.len() ==> #[trigger] work_fits(t, j)
            &&& forall|k: int| 0 <= k < t.scopes.len() ==> #[trigger] scope_fits(t, k)
            &&& forall|i: int| 0 <= i < t.sessions.len() ==> #[trigger] session_fits(t, i)
            &&& t.work.len() > 0 ==> t.work.last().row <= MAX_NUMBER
            &&& t.scopes.len() > 0 ==> t.scopes.last().row <= MAX_NUMBER
        },
{
    reveal(Tables::accounted);
    if t.well_formed() {
        assert forall|j: int| 0 <= j < t.work.len() implies #[trigger] work_fits(t, j) by {
            assert(t.profiled(t.work[j]));
        }
        assert forall|k: int| 0 <= k < t.scopes.len() implies #[trigger] scope_fits(t, k) by {
            assert(t.counted(t.scopes[k]));
        }
        assert forall|i: int| 0 <= i < t.sessions.len() implies #[trigger] session_fits(t, i) by {
            assert(t.named(t.sessions[i]));
        }
    }
    if (forall|j: int| 0 <= j < t.work.len() ==> #[trigger] work_fits(t, j)) && (forall|k: int|
        0 <= k < t.scopes.len() ==> #[trigger] scope_fits(t, k)) && (forall|i: int|
        0 <= i < t.sessions.len() ==> #[trigger] session_fits(t, i)) && (t.work.len() > 0
        ==> t.work.last().row <= MAX_NUMBER) && (t.scopes.len() > 0 ==> t.scopes.last().row
        <= MAX_NUMBER) {
        lemma_fitting_work(t);
        lemma_fitting_scopes(t);
        assert forall|i: int, j: int| 0 <= i < j < t.sessions.len() implies (
        #[trigger] t.sessions[i]).binding.identity.generation.0 < (
        #[trigger] t.sessions[j]).binding.identity.generation.0 by {
            lemma_sessions_ascend(t, i, j);
        }
        assert forall|i: int| 0 <= i < t.sessions.len() implies t.named(#[trigger] t.sessions[i]) by {
            assert(session_fits(t, i));
        }
        assert(t.accounted());
        assert(t.arranged());
    }
}

proof fn lemma_sessions_ascend(t: Tables, i: int, j: int)
    requires
        forall|n: int| 0 <= n < t.sessions.len() ==> #[trigger] session_fits(t, n),
        0 <= i < j < t.sessions.len(),
    ensures
        t.sessions[i].binding.identity.generation.0 < t.sessions[j].binding.identity.generation.0,
    decreases j - i,
{
    assert(session_fits(t, j));
    if i < j - 1 {
        lemma_sessions_ascend(t, i, j - 1);
    }
}

proof fn lemma_fitting_work(t: Tables)
    requires
        forall|j: int| 0 <= j < t.work.len() ==> #[trigger] work_fits(t, j),
    ensures
        forall|i: int, j: int|
            0 <= i < j < t.work.len() ==> work_before(#[trigger] t.work[i], #[trigger] t.work[j]),
        forall|i: int, k: int|
            0 <= i < t.work.len() && 0 <= k < t.scopes.len() ==> declared_in(
                #[trigger] t.work[i],
                #[trigger] t.scopes[k],
            ),
        forall|j: int|
            0 <= j < t.work.len() ==> t.profiled(#[trigger] t.work[j]) && t.work[j].generation.0
                <= t.last_generation,
{
    assert forall|i: int, j: int| 0 <= i < j < t.work.len() implies work_before(
        #[trigger] t.work[i],
        #[trigger] t.work[j],
    ) by {
        assert(work_fits(t, j));
    }
    assert forall|i: int, k: int| 0 <= i < t.work.len() && 0 <= k < t.scopes.len() implies declared_in(
        #[trigger] t.work[i],
        #[trigger] t.scopes[k],
    ) by {
        assert(work_fits(t, i));
    }
    assert forall|j: int| 0 <= j < t.work.len() implies t.profiled(#[trigger] t.work[j])
        && t.work[j].generation.0 <= t.last_generation by {
        assert(work_fits(t, j));
    }
}

proof fn lemma_fitting_scopes(t: Tables)
    requires
        forall|k: int| 0 <= k < t.scopes.len() ==> #[trigger] scope_fits(t, k),
    ensures
        forall|i: int, j: int|
            0 <= i < j < t.scopes.len() ==> scope_before(
                #[trigger] t.scopes[i],
                #[trigger] t.scopes[j],
            ),
        forall|k: int|
            0 <= k < t.scopes.len() ==> t.counted(#[trigger] t.scopes[k]) && store::closed_sealed(
                t.scopes[k],
            ) && t.scopes[k].generation.0 <= t.last_generation,
{
    assert forall|i: int, j: int| 0 <= i < j < t.scopes.len() implies scope_before(
        #[trigger] t.scopes[i],
        #[trigger] t.scopes[j],
    ) by {
        assert(scope_fits(t, j));
    }
    assert forall|k: int| 0 <= k < t.scopes.len() implies t.counted(#[trigger] t.scopes[k])
        && store::closed_sealed(t.scopes[k]) && t.scopes[k].generation.0 <= t.last_generation by {
        assert(scope_fits(t, k));
    }
}

impl AuthorityStore {
    fn is_housed(&self, j: usize) -> (r: bool)
        requires
            j < self@.work.len(),
        ensures
            r == self@.housed(self@.work[j as int]),
    {
        let generation = self.work[j].generation;
        let key = self.work[j].view.work;
        let same = match self.find_scope(generation, key.scope) {
            Some(k) => self.scopes[k].producer == key.producer,
            None => true,
        };
        let opened = match &self.work[j].view.child {
            Some(child) => self.find_scope(generation, Number(child.scope.0)).is_some(),
            None => true,
        };
        same && opened
    }

    fn is_profiled(&self, j: usize) -> (r: bool)
        requires
            j < self@.work.len(),
        ensures
            r == self@.profiled(self@.work[j as int]),
    {
        let valid = match self.find_session(self.work[j].generation) {
            Some(i) => self.work[j].view.validate_profiles(self.sessions[i].binding.results).is_ok(),
            None => self.work[j].view.check().is_ok(),
        };
        let fenced = match &self.work[j].fence {
            Some(fence) => fence.outcome.0 == State::CANCELLED || fence.outcome.0 == State::SKIPPED,
            None => true,
        };
        let admitted = match self.work[j].view.admitted_at {
            Some(at) => at.0 <= self.greatest && self.work[j].job.is_some(),
            None => true,
        };
        valid && fenced && admitted && self.is_housed(j)
    }

    fn does_work_fit(&self, j: usize) -> (r: bool)
        requires
            j < self@.work.len(),
        ensures
            r == work_fits(self@, j as int),
    {
        if self.work[j].generation.0 > self.last_generation || !self.is_profiled(j) {
            return false;
        }
        let generation = self.work[j].generation;
        let key = self.work[j].view.work;
        let mut i: usize = 0;
        while i < j
            invariant
                i <= j < self@.work.len(),
                generation == self@.work[j as int].generation,
                key == self@.work[j as int].view.work,
                forall|n: int|
                    0 <= n < i ==> work_before(#[trigger] self@.work[n], self@.work[j as int]),
            decreases j - i,
        {
            let other = &self.work[i];
            let clash = other.generation == generation && other.view.work.scope == key.scope
                && other.view.work.entity.0 >= key.entity.0;
            if other.row >= self.work[j].row || clash {
                assert(!work_before(self@.work[i as int], self@.work[j as int]));
                return false;
            }
            i += 1;
        }
        let mut k: usize = 0;
        while k < self.scopes.len()
            invariant
                j < self@.work.len(),
                k <= self@.scopes.len(),
                generation == self@.work[j as int].generation,
                key == self@.work[j as int].view.work,
                forall|n: int|
                    0 <= n < k ==> declared_in(self@.work[j as int], #[trigger] self@.scopes[n]),
            decreases self.scopes@.len() - k,
        {
            let scope = &self.scopes[k];
            if scope.generation == generation && scope.scope == key.scope && key.entity.0
                > scope.last_entity {
                assert(!declared_in(self@.work[j as int], self@.scopes[k as int]));
                return false;
            }
            k += 1;
        }
        true
    }

    fn is_counted(&self, k: usize) -> (r: bool)
        requires
            k < self@.scopes.len(),
        ensures
            r == self@.counted(self@.scopes[k as int]),
    {
        let generation = self.scopes[k].generation;
        let scope = self.scopes[k].scope;
        let active = match self.find_session(generation) {
            Some(i) => !self.sessions[i].retiring,
            None => false,
        };
        let closed = match &self.scopes[k].summary {
            Some(summary) => summary.scope == scope && summary.check().is_ok(),
            None => true,
        };
        if !active {
            return closed;
        }
        let members = self.member_entities(generation, scope);
        closed && self.scopes[k].declared.0 == members.len() as u64
    }

    fn does_scope_fit(&self, k: usize) -> (r: bool)
        requires
            k < self@.scopes.len(),
        ensures
            r == scope_fits(self@, k as int),
    {
        let row = &self.scopes[k];
        let sealed = match (&row.summary, &row.seal) {
            (Some(summary), Some(seal)) => seal.same(&summary.seal),
            (Some(_), None) => false,
            _ => true,
        };
        if row.generation.0 > self.last_generation || !sealed || !self.is_counted(k) {
            return false;
        }
        let mut i: usize = 0;
        while i < k
            invariant
                i <= k < self@.scopes.len(),
                *row == self@.scopes[k as int],
                forall|n: int|
                    0 <= n < i ==> scope_before(#[trigger] self@.scopes[n], self@.scopes[k as int]),
            decreases k - i,
        {
            let other = &self.scopes[i];
            if other.row >= row.row || (other.generation == row.generation && other.scope
                == row.scope) {
                assert(!scope_before(self@.scopes[i as int], self@.scopes[k as int]));
                return false;
            }
            i += 1;
        }
        true
    }

    fn does_session_fit(&self, i: usize) -> (r: bool)
        requires
            i < self@.sessions.len(),
        ensures
            r == session_fits(self@, i as int),
    {
        let binding = &self.sessions[i].binding;
        let last: u64 = match self.find_owner(&binding.identity.owner) {
            Some(o) => self.owners[o].last_creation,
            None => 0,
        };
        let named = binding.identity.authority.check().is_ok()
            && binding.identity.owner.check().is_ok() && binding.identity.generation.check().is_ok()
            && binding.creation_sequence.check().is_ok()
            && binding.policy.receipt_retention_ms.check().is_ok();
        named && binding.identity.generation.0 <= self.last_generation
            && binding.creation_sequence.0 <= last && (i == 0 || self.sessions[i
            - 1].binding.identity.generation.0 < binding.identity.generation.0)
    }

    /// Whether the tables are ones that transitions lead to. Tables that were read back from storage are
    /// tested before anything is asked of them.
    pub fn is_well_formed(&self) -> (r: bool)
        ensures
            r == self@.well_formed(),
    {
        proof {
            lemma_rows_fit(self@);
        }
        if self.work.len() > 0 && self.work[self.work.len() - 1].row > MAX_NUMBER {
            return false;
        }
        if self.scopes.len() > 0 && self.scopes[self.scopes.len() - 1].row > MAX_NUMBER {
            return false;
        }
        let mut j: usize = 0;
        while j < self.work.len()
            invariant
                j <= self@.work.len(),
                self@.well_formed() ==> forall|n: int|
                    0 <= n < self@.work.len() ==> #[trigger] work_fits(self@, n),
                forall|n: int| 0 <= n < j ==> #[trigger] work_fits(self@, n),
            decreases self.work@.len() - j,
        {
            if !self.does_work_fit(j) {
                return false;
            }
            j += 1;
        }
        let mut k: usize = 0;
        while k < self.scopes.len()
            invariant
                k <= self@.scopes.len(),
                self@.well_formed() ==> forall|n: int|
                    0 <= n < self@.scopes.len() ==> #[trigger] scope_fits(self@, n),
                forall|n: int| 0 <= n < k ==> #[trigger] scope_fits(self@, n),
            decreases self.scopes@.len() - k,
        {
            if !self.does_scope_fit(k) {
                return false;
            }
            k += 1;
        }
        let mut i: usize = 0;
        while i < self.sessions.len()
            invariant
                i <= self@.sessions.len(),
                self@.well_formed() ==> forall|n: int|
                    0 <= n < self@.sessions.len() ==> #[trigger] session_fits(self@, n),
                forall|n: int| 0 <= n < i ==> #[trigger] session_fits(self@, n),
            decreases self.sessions@.len() - i,
        {
            if !self.does_session_fit(i) {
                return false;
            }
            i += 1;
        }
        true
    }
}

} // verus!
