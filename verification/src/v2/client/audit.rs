//! The audit of everything that a journal retains.

use super::super::authority::store::Fault;
use super::super::authority::table;
use super::super::records::Manifest;
use super::super::wire::Wire;
use super::journal::{Journal, Notes, OperationEntry};
use super::receipts::{check, integrity, unless};
use super::records::{ObservedWork, ScopeMember, ScopeObservation};
use super::storage::{self, validate_receipt, JournalError};
use vstd::prelude::*;

verus! {

impl Notes {
    /// A receipt answers its intent and agrees with everything that is known.
    pub open spec fn entry_check(self) -> spec_fn(OperationEntry) -> Option<Fault> {
        |e: OperationEntry|
            match e.receipt {
                Some(receipt) => {
                    let answer = storage::receipt_fault(e.intent, self.bound->0.identity, receipt);
                    if answer is Some {
                        answer
                    } else {
                        self.receipt_problem(e.intent, receipt)
                    }
                },
                None => None,
            }
    }

    /// What is wrong with the operations, if anything is.
    pub open spec fn operations_fault(self) -> Option<Fault> {
        if self.operations.len() > self.limits.operations.0 || (self.operations.len() > 0
            && self.bound is None) {
            Some(Fault::Corrupt)
        } else {
            table::first_fault(self.operations, self.entry_check())
        }
    }

    /// An observation stands, and a success has its manifest retained.
    pub open spec fn stands(self) -> spec_fn(ObservedWork) -> Option<Fault> {
        |o: ObservedWork|
            {
                let m = self.manifest_at(o.view.work);
                if self.view_problem(o) is Some {
                    self.view_problem(o)
                } else {
                    unless(
                        o.view.manifest matches Some(shown) ==> m < self.manifests.len()
                            && self.manifests[m].agrees(&shown),
                    )
                }
            }
    }

    pub open spec fn published(self) -> spec_fn(Manifest) -> Option<Fault> {
        |m: Manifest| self.manifest_problem(m)
    }

    /// What is wrong with the observations, if anything is.
    pub open spec fn observations_fault(self) -> Option<Fault> {
        let standing = table::first_fault(self.observations, self.stands());
        if self.observations.len() > self.limits.observations.0 {
            Some(Fault::Corrupt)
        } else if standing is Some {
            standing
        } else if self.manifests.len() > self.limits.observations.0 {
            Some(Fault::Corrupt)
        } else {
            table::first_fault(self.manifests, self.published())
        }
    }

    /// A scope is what the evidence gives, and so is its closure.
    pub open spec fn scope_stands(self) -> spec_fn(ScopeObservation) -> Option<Fault> {
        |s: ScopeObservation|
            {
                let c = self.coverage_at(s.scope);
                if self.scope_fault(s) is Some {
                    self.scope_fault(s)
                } else if c < self.coverage.len() {
                    self.stored_fault(self.coverage[c])
                } else {
                    None
                }
            }
    }

    /// Evidence belongs to a known scope.
    pub open spec fn adopted(self) -> bool {
        &&& forall|i: int|
            0 <= i < self.members.len() ==> self.scope_at((#[trigger] self.members[i]).work.scope)
                < self.scopes.len()
        &&& forall|i: int|
            0 <= i < self.coverage.len() ==> self.scope_at((#[trigger] self.coverage[i]).scope)
                < self.scopes.len()
    }

    pub open spec fn member_stands(self) -> spec_fn(ScopeMember) -> Option<Fault> {
        |m: ScopeMember|
            {
                let s = self.scope_at(m.work.scope);
                if !(s < self.scopes.len() && self.scopes[s].producer == m.work.producer) {
                    Some(integrity())
                } else {
                    self.member_fault(m)
                }
            }
    }

    /// What is wrong with the scopes, if anything is. Scopes are looked at from the newest to the
    /// oldest, so that what closes below is looked at before what closes above.
    pub open spec fn scopes_fault(self) -> Option<Fault> {
        let standing = table::first_fault(self.scopes.reverse(), self.scope_stands());
        let members = table::first_fault(self.members, self.member_stands());
        if self.scopes.len() > self.limits.observations.0 || self.members.len()
            > self.limits.observations.0 || self.coverage.len() > self.limits.observations.0 {
            Some(integrity())
        } else if standing is Some {
            standing
        } else if !self.adopted() {
            Some(integrity())
        } else if members is Some {
            members
        } else {
            self.relations_fault()
        }
    }

    /// What is wrong with the notes, if anything is.
    #[verifier::opaque]
    pub open spec fn audit_fault(self) -> Option<Fault> {
        if self.operations_fault() is Some {
            self.operations_fault()
        } else if self.observations_fault() is Some {
            self.observations_fault()
        } else if self.references_fault() is Some {
            self.references_fault()
        } else {
            self.scopes_fault()
        }
    }
}

/// Notes in order that pass the audit are arranged.
pub proof fn law_audited_notes_are_arranged(t: Notes)
    requires
        t.ordered(),
        t.audit_fault() is None,
    ensures
        t.arranged(),
{
    reveal(Notes::audit_fault);
    table::lemma_first_fault_none(t.operations, t.entry_check());
    assert forall|i: int| 0 <= i < t.operations.len() implies super::journal::answers(
        #[trigger] t.operations[i],
        t.bound->0.identity,
    ) by {
        assert(t.entry_check()(t.operations[i]) is None);
    }
}

impl Journal {
    fn audit_operations(&self) -> (r: Result<(), JournalError>)
        ensures
            match r {
                Ok(_) => self@.operations_fault() is None,
                Err(e) => self@.operations_fault() == Some(e.fault()),
            },
    {
        if self.operations.len() as u64 > self.limits.operations.0 || (self.operations.len() != 0
            && self.bound.is_none()) {
            return Err(JournalError::Corrupt("journal count or binding missing"));
        }
        let ghost f = self@.entry_check();
        let mut i: usize = 0;
        proof {
            table::lemma_first_fault_whole(self.operations@, f);
        }
        while i < self.operations.len()
            invariant
                i <= self.operations@.len(),
                f == self@.entry_check(),
                self.operations@.len() > 0 ==> self@.bound is Some,
                table::first_fault(self.operations@.take(i as int), f) is None,
                self@.operations_fault() == table::first_fault(self.operations@, f),
            decreases self.operations@.len() - i,
        {
            proof {
                table::lemma_first_fault_step(self.operations@, f, i as int);
            }
            match &self.operations[i].receipt {
                Some(receipt) => {
                    let identity = self.known_identity()?;
                    validate_receipt(&self.operations[i].intent, identity, receipt)?;
                    self.validate_known_receipt(&self.operations[i].intent, receipt)?;
                },
                None => {},
            }
            i += 1;
        }
        proof {
            table::lemma_first_fault_whole(self.operations@, f);
        }
        Ok(())
    }

    fn audit_views(&self) -> (r: Result<(), JournalError>)
        ensures
            match r {
                Ok(_) => table::first_fault(self@.observations, self@.stands()) is None,
                Err(e) => table::first_fault(self@.observations, self@.stands()) == Some(e.fault()),
            },
    {
        let ghost f = self@.stands();
        let mut i: usize = 0;
        proof {
            table::lemma_first_fault_whole(self.observations@, f);
        }
        while i < self.observations.len()
            invariant
                i <= self.observations@.len(),
                f == self@.stands(),
                table::first_fault(self.observations@.take(i as int), f) is None,
            decreases self.observations@.len() - i,
        {
            proof {
                table::lemma_first_fault_step(self.observations@, f, i as int);
            }
            let observed = &self.observations[i];
            self.validate_view(observed)?;
            match &observed.view.manifest {
                Some(shown) => {
                    let kept = match self.find_manifest(&observed.view.work) {
                        Some(k) => self.manifests[k].same(shown),
                        None => false,
                    };
                    check(kept, "success observation lacks retained manifest")?;
                },
                None => {},
            }
            i += 1;
        }
        proof {
            table::lemma_first_fault_whole(self.observations@, f);
        }
        Ok(())
    }

    pub fn audit_observations(&self) -> (r: Result<(), JournalError>)
        ensures
            match r {
                Ok(_) => self@.observations_fault() is None,
                Err(e) => self@.observations_fault() == Some(e.fault()),
            },
    {
        if self.observations.len() as u64 > self.limits.observations.0 {
            return Err(JournalError::Corrupt("observation inventory exceeds retained limit"));
        }
        self.audit_views()?;
        if self.manifests.len() as u64 > self.limits.observations.0 {
            return Err(JournalError::Corrupt("observation inventory exceeds retained limit"));
        }
        let ghost f = self@.published();
        let mut i: usize = 0;
        proof {
            table::lemma_first_fault_whole(self.manifests@, f);
        }
        while i < self.manifests.len()
            invariant
                i <= self.manifests@.len(),
                f == self@.published(),
                table::first_fault(self.manifests@.take(i as int), f) is None,
                self@.observations_fault() == table::first_fault(self.manifests@, f),
            decreases self.manifests@.len() - i,
        {
            proof {
                table::lemma_first_fault_step(self.manifests@, f, i as int);
            }
            self.validate_manifest(&self.manifests[i])?;
            i += 1;
        }
        proof {
            table::lemma_first_fault_whole(self.manifests@, f);
        }
        Ok(())
    }

    fn audit_records(&self) -> (r: Result<(), JournalError>)
        requires
            self@.ordered(),
        ensures
            match r {
                Ok(_) => table::first_fault(self@.scopes.reverse(), self@.scope_stands()) is None,
                Err(e) => table::first_fault(self@.scopes.reverse(), self@.scope_stands()) == Some(
                    e.fault(),
                ),
            },
    {
        let ghost f = self@.scope_stands();
        let ghost rows = self@.scopes.reverse();
        let count = self.scopes.len();
        let mut i: usize = 0;
        proof {
            table::lemma_first_fault_whole(rows, f);
        }
        while i < count
            invariant
                i <= count,
                count == self@.scopes.len(),
                rows == self@.scopes.reverse(),
                f == self@.scope_stands(),
                self@.ordered(),
                table::first_fault(rows.take(i as int), f) is None,
            decreases count - i,
        {
            let k = count - 1 - i;
            proof {
                table::lemma_first_fault_step(rows, f, i as int);
                assert(rows[i as int] == self@.scopes[k as int]);
            }
            self.check_scope_record(&self.scopes[k])?;
            match self.find_coverage(self.scopes[k].scope) {
                Some(c) => {
                    self.validate_stored_coverage(&self.coverage[c])?;
                },
                None => {},
            }
            i += 1;
        }
        proof {
            table::lemma_first_fault_whole(rows, f);
        }
        Ok(())
    }

    fn audit_orphans(&self) -> (r: bool)
        ensures
            r == self@.adopted(),
    {
        let mut i: usize = 0;
        while i < self.members.len()
            invariant
                i <= self.members@.len(),
                forall|j: int|
                    0 <= j < i ==> self@.scope_at((#[trigger] self.members@[j]).work.scope)
                        < self@.scopes.len(),
            decreases self.members@.len() - i,
        {
            if self.find_scope(self.members[i].work.scope).is_none() {
                assert(self@.scope_at(self@.members[i as int].work.scope) >= self@.scopes.len());
                return false;
            }
            i += 1;
        }
        let mut k: usize = 0;
        while k < self.coverage.len()
            invariant
                k <= self.coverage@.len(),
                forall|j: int|
                    0 <= j < k ==> self@.scope_at((#[trigger] self.coverage@[j]).scope)
                        < self@.scopes.len(),
            decreases self.coverage@.len() - k,
        {
            if self.find_scope(self.coverage[k].scope).is_none() {
                assert(self@.scope_at(self@.coverage[k as int].scope) >= self@.scopes.len());
                return false;
            }
            k += 1;
        }
        true
    }

    fn audit_members(&self) -> (r: Result<(), JournalError>)
        ensures
            match r {
                Ok(_) => table::first_fault(self@.members, self@.member_stands()) is None,
                Err(e) => table::first_fault(self@.members, self@.member_stands()) == Some(
                    e.fault(),
                ),
            },
    {
        let ghost f = self@.member_stands();
        let mut i: usize = 0;
        proof {
            table::lemma_first_fault_whole(self.members@, f);
        }
        while i < self.members.len()
            invariant
                i <= self.members@.len(),
                f == self@.member_stands(),
                table::first_fault(self.members@.take(i as int), f) is None,
            decreases self.members@.len() - i,
        {
            proof {
                table::lemma_first_fault_step(self.members@, f, i as int);
            }
            let placed = match self.find_scope(self.members[i].work.scope) {
                Some(s) => self.scopes[s].producer == self.members[i].work.producer,
                None => false,
            };
            check(placed, "member identity index changed")?;
            self.validate_member(&self.members[i])?;
            i += 1;
        }
        proof {
            table::lemma_first_fault_whole(self.members@, f);
        }
        Ok(())
    }

    pub fn audit_scopes(&self) -> (r: Result<(), JournalError>)
        requires
            self@.ordered(),
        ensures
            match r {
                Ok(_) => self@.scopes_fault() is None,
                Err(e) => self@.scopes_fault() == Some(e.fault()),
            },
    {
        let limit = self.limits.observations.0;
        check(
            self.scopes.len() as u64 <= limit && self.members.len() as u64 <= limit
                && self.coverage.len() as u64 <= limit,
            "scope inventory exceeds retained ceiling",
        )?;
        // Child scope IDs are strictly newer than their parents. Checking in
        // descending order validates the whole closure DAG without recursion or
        // a whole-tree buffer, including arbitrarily deep chains within quota.
        self.audit_records()?;
        check(self.audit_orphans(), "orphan scope evidence")?;
        self.audit_members()?;
        self.validate_scope_relations()
    }

    /// Holds everything that is retained against everything else.
    pub fn audit(&self) -> (r: Result<(), JournalError>)
        requires
            self@.ordered(),
        ensures
            match r {
                Ok(_) => self@.audit_fault() is None && self@.arranged(),
                Err(e) => self@.audit_fault() == Some(e.fault()),
            },
    {
        proof {
            reveal(Notes::audit_fault);
        }
        self.audit_operations()?;
        self.audit_observations()?;
        self.audit_references()?;
        self.audit_scopes()?;
        proof {
            law_audited_notes_are_arranged(self@);
        }
        Ok(())
    }
}

} // verus!
