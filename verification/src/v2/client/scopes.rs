//! Authenticated scope inventory. Membership is complete only after the full count and
//! domain-separated seal are verified.

use super::super::authority::store::Fault;
use super::super::authority::table;
use super::super::commitments::{self, Mutation, ScopeSeal, SealProgress, SessionIdentity};
use super::super::error::{ErrorCode, MAX_HEADER};
use super::super::numbers::{Id, Number};
use super::super::records::WorkKey;
use super::super::wire::{encode, Wire};
use super::journal::{Journal, Notes, OperationEntry};
use super::known::{self, apply_declaration};
use super::observations::{self, protocol, session_key};
use super::receipts::{check, integrity, target};
use super::records::{ScopeMember, ScopeObservation};
use super::storage::JournalError;
use vstd::prelude::*;
use vstd::utf8::*;

verus! {

/// The namespace of a record about a scope or a member of it.
pub open spec fn scope_key(
    identity: SessionIdentity,
    table: Seq<char>,
    scope: Number,
    entity: Option<Id>,
) -> Seq<u8> {
    encode_utf8(table) + identity.authority.wire() + identity.owner.wire()
        + identity.generation.wire() + scope.wire() + entity.wire()
}

pub fn namespace(identity: &SessionIdentity, table: &str, scope: Number, entity: Option<Id>) -> (r:
    Result<Vec<u8>, JournalError>)
    ensures
        match r {
            Ok(b) => observations::names_session(*identity) && scope.valid() && entity.valid()
                && scope.wire().len() <= MAX_HEADER && entity.wire().len() <= MAX_HEADER && b@
                == scope_key(*identity, table@, scope, entity),
            Err(e) => !(observations::names_session(*identity) && scope.valid() && entity.valid()
                && scope.wire().len() <= MAX_HEADER && entity.wire().len() <= MAX_HEADER)
                && e.fault() == Fault::Refused(ErrorCode::FrameError),
        },
{
    let mut bytes = session_key(identity, table)?;
    let mut a = protocol(encode(&scope, MAX_HEADER))?;
    bytes.append(&mut a);
    let mut b = protocol(encode(&entity, MAX_HEADER))?;
    bytes.append(&mut b);
    assert(bytes@ =~= scope_key(*identity, table@, scope, entity));
    Ok(bytes)
}

proof fn lemma_declarations_prefix(
    t: Notes,
    entries: Seq<OperationEntry>,
    scope: ScopeObservation,
    i: int,
)
    requires
        0 <= i <= entries.len(),
        t.with_declarations(entries.take(i), scope) is Err,
    ensures
        t.with_declarations(entries, scope) == t.with_declarations(entries.take(i), scope),
    decreases entries.len() - i,
{
    if i < entries.len() {
        assert(entries.take(i + 1).drop_last() =~= entries.take(i));
        lemma_declarations_prefix(t, entries, scope, i + 1);
    } else {
        assert(entries.take(i) =~= entries);
    }
}

/// The members of a scope are valid and stand in the order of their entities.
pub proof fn lemma_scope_members_ordered(members: Seq<ScopeMember>, scope: Number)
    requires
        forall|i: int, j: int|
            0 <= i < j < members.len() ==> known::before((#[trigger] members[i]).work, (
            #[trigger] members[j]).work),
        forall|i: int| 0 <= i < members.len() ==> (#[trigger] members[i]).valid(),
    ensures
        ({
            let rows = table::rows_where(members, known::member_of_scope(scope));
            &&& forall|i: int, j: int|
                0 <= i < j < rows.len() ==> (#[trigger] rows[i]).work.entity.0 < (
                #[trigger] rows[j]).work.entity.0
            &&& forall|i: int|
                0 <= i < rows.len() ==> (#[trigger] rows[i]).valid() && rows[i].work.scope == scope
        }),
    decreases members.len(),
{
    let p = known::member_of_scope(scope);
    if members.len() > 0 {
        let front = members.drop_last();
        assert forall|i: int, j: int| 0 <= i < j < front.len() implies known::before(
            (#[trigger] front[i]).work,
            (#[trigger] front[j]).work,
        ) by {
            assert(known::before(members[i].work, members[j].work));
        }
        lemma_scope_members_ordered(front, scope);
        let inner = table::rows_where(front, p);
        assert forall|i: int| 0 <= i < inner.len() implies known::before(
            (#[trigger] inner[i]).work,
            members.last().work,
        ) by {
            table::lemma_rows_where_member(front, p, i);
            let k = choose|k: int|
                0 <= k < front.len() && front[k] == #[trigger] table::rows_where(front, p)[i];
            assert(known::before(members[k].work, members[members.len() - 1].work));
        }
    }
}

impl Journal {
    /// The members of a scope, in the order of their entities.
    pub fn members_of(&self, scope: Number) -> (r: Vec<ScopeMember>)
        ensures
            r@ == self@.scope_members(scope),
    {
        let ghost p = known::member_of_scope(scope);
        let mut rows: Vec<ScopeMember> = Vec::new();
        let mut i: usize = 0;
        assert(self.members@.take(0) =~= Seq::empty());
        while i < self.members.len()
            invariant
                i <= self.members@.len(),
                p == known::member_of_scope(scope),
                rows@ == table::rows_where(self.members@.take(i as int), p),
            decreases self.members@.len() - i,
        {
            proof {
                assert(self.members@.take(i + 1) =~= self.members@.take(i as int).push(
                    self.members@[i as int],
                ));
                table::lemma_rows_where_push(
                    self.members@.take(i as int),
                    p,
                    self.members@[i as int],
                );
            }
            if self.members[i].work.scope == scope {
                rows.push(self.members[i]);
            }
            i += 1;
        }
        assert(self.members@.take(i as int) =~= self.members@);
        rows
    }

    fn apply_declaration_receipts(&self, scope: &ScopeObservation) -> (r: Result<
        ScopeObservation,
        JournalError,
    >)
        ensures
            match r {
                Ok(s) => self@.with_declarations(self@.operations, *scope) == Ok::<
                    ScopeObservation,
                    Fault,
                >(s),
                Err(e) => self@.with_declarations(self@.operations, *scope) == Err::<
                    ScopeObservation,
                    Fault,
                >(e.fault()),
            },
    {
        let ghost t = self@;
        let mut current = *scope;
        let mut i: usize = 0;
        assert(self.operations@.take(0) =~= Seq::empty());
        while i < self.operations.len()
            invariant
                i <= self.operations@.len(),
                t == self@,
                t.with_declarations(self.operations@.take(i as int), *scope) == Ok::<
                    ScopeObservation,
                    Fault,
                >(current),
            decreases self.operations@.len() - i,
        {
            let ghost entries = self.operations@.take(i + 1);
            proof {
                assert(entries.drop_last() =~= self.operations@.take(i as int));
                assert(entries.last() == self.operations@[i as int]);
            }
            let declared = match &self.operations[i].intent.mutation {
                Mutation::Declare { scope: s, .. } => *s == scope.scope,
                _ => false,
            };
            if declared {
                match &self.operations[i].receipt {
                    Some(receipt) => match apply_declaration(&current, receipt) {
                        Ok(next) => {
                            current = next;
                        },
                        Err(e) => {
                            proof {
                                lemma_declarations_prefix(t, self.operations@, *scope, i + 1);
                            }
                            return Err(e);
                        },
                    },
                    None => {},
                }
            }
            i += 1;
        }
        assert(self.operations@.take(i as int) =~= self.operations@);
        Ok(current)
    }

    /// Holds the members against the seal.
    fn verify_seal(&self, scope: &ScopeObservation, members: &Vec<ScopeMember>) -> (r: Result<
        (),
        JournalError,
    >)
        requires
            self@.ordered(),
            scope.seal is Some,
            members@ == self@.scope_members(scope.scope),
            members@.len() == scope.declared.0,
        ensures
            match r {
                Ok(_) => self@.seal_fault(*scope) is None,
                Err(e) => self@.seal_fault(*scope) == Some(e.fault()),
            },
    {
        let identity = self.known_identity()?;
        let mut seal = protocol(
            ScopeSeal::new(identity, scope.scope, scope.producer, &scope.parent, scope.declared),
        )?;
        let ghost start = seal@;
        let ghost t = self@;
        let ghost f = Notes::producer_check(*scope);
        let ghost ids = t.scope_ids(scope.scope);
        let mut i: usize = 0;
        proof {
            lemma_scope_members_ordered(t.members, scope.scope);
            table::lemma_first_fault_whole(members@, f);
            assert(ids.take(0) =~= Seq::empty());
        }
        while i < members.len()
            invariant
                i <= members@.len(),
                t == self@,
                members@ == t.scope_members(scope.scope),
                members@.len() == scope.declared.0,
                ids == t.scope_ids(scope.scope),
                ids.len() == members@.len(),
                f == Notes::producer_check(*scope),
                table::first_fault(members@.take(i as int), f) is None,
                seal.well_formed(),
                start.declared == scope.declared,
                seal@ == (SealProgress { ids: ids.take(i as int), ..start }),
                t.bound is Some,
                commitments::placeable(
                    t.bound->0.identity,
                    scope.scope,
                    scope.producer,
                    scope.parent,
                    scope.declared,
                ),
                forall|j: int, k: int|
                    0 <= j < k < members@.len() ==> (#[trigger] members@[j]).work.entity.0 < (
                    #[trigger] members@[k]).work.entity.0,
                forall|j: int| 0 <= j < members@.len() ==> (#[trigger] members@[j]).valid(),
            decreases members@.len() - i,
        {
            proof {
                table::lemma_first_fault_step(members@, f, i as int);
                assert(ids[i as int] == members@[i as int].work.entity);
                assert(ids.take(i + 1) =~= ids.take(i as int).push(ids[i as int]));
                assert(members@[i as int].valid());
                if i > 0 {
                    assert(ids.take(i as int).last() == members@[i - 1].work.entity);
                    assert(members@[i - 1].work.entity.0 < members@[i as int].work.entity.0);
                }
            }
            check(members[i].work.producer == scope.producer, "member identity index changed")?;
            protocol(seal.push(members[i].work.entity))?;
            i += 1;
        }
        proof {
            table::lemma_first_fault_whole(members@, f);
            assert(ids.take(i as int) =~= ids);
        }
        let digest = protocol(seal.finish())?;
        let same = match &scope.seal {
            Some(expected) => digest.same(expected),
            None => false,
        };
        check(same, "scope membership seal mismatch")
    }

    fn check_declared(&self, scope: &ScopeObservation) -> (r: Result<(), JournalError>)
        ensures
            match r {
                Ok(_) => table::first_fault(self@.operations, self@.declared_check(*scope)) is None,
                Err(e) => table::first_fault(self@.operations, self@.declared_check(*scope))
                    == Some(e.fault()),
            },
    {
        let ghost f = self@.declared_check(*scope);
        let mut i: usize = 0;
        proof {
            table::lemma_first_fault_whole(self.operations@, f);
        }
        while i < self.operations.len()
            invariant
                i <= self.operations@.len(),
                f == self@.declared_check(*scope),
                table::first_fault(self.operations@.take(i as int), f) is None,
            decreases self.operations@.len() - i,
        {
            proof {
                table::lemma_first_fault_step(self.operations@, f, i as int);
            }
            let declared = match &self.operations[i].intent.mutation {
                Mutation::Declare { scope: s, .. } => *s == scope.scope,
                _ => false,
            };
            if declared && self.operations[i].receipt.is_some() {
                self.check_declaration_members(scope, &self.operations[i].intent)?;
            }
            i += 1;
        }
        proof {
            table::lemma_first_fault_whole(self.operations@, f);
        }
        Ok(())
    }

    fn check_belongs(&self, scope: &ScopeObservation, work: &WorkKey) -> (r: Result<
        (),
        JournalError,
    >)
        ensures
            match r {
                Ok(_) => self@.belongs(*scope, *work),
                Err(e) => !self@.belongs(*scope, *work) && e.fault() == integrity(),
            },
    {
        if work.scope != scope.scope {
            return Ok(());
        }
        check(work.producer == scope.producer, "scope disagrees with known work producer")?;
        if scope.membership_verified {
            let member = self.read_member(work)?;
            check(member.is_some(), "known work omitted from sealed membership")?;
        }
        Ok(())
    }

    fn validate_known_membership(&self, scope: &ScopeObservation) -> (r: Result<(), JournalError>)
        ensures
            match r {
                Ok(_) => self@.membership_fault(*scope) is None,
                Err(e) => self@.membership_fault(*scope) == Some(e.fault()),
            },
    {
        self.check_declared(scope)?;
        let ghost f = self@.observed_check(*scope);
        let mut i: usize = 0;
        proof {
            table::lemma_first_fault_whole(self.observations@, f);
        }
        while i < self.observations.len()
            invariant
                i <= self.observations@.len(),
                f == self@.observed_check(*scope),
                table::first_fault(self.observations@.take(i as int), f) is None,
                table::first_fault(self@.operations, self@.declared_check(*scope)) is None,
            decreases self.observations@.len() - i,
        {
            proof {
                table::lemma_first_fault_step(self.observations@, f, i as int);
            }
            self.check_belongs(scope, &self.observations[i].view.work)?;
            i += 1;
        }
        proof {
            table::lemma_first_fault_whole(self.observations@, f);
        }
        let ghost g = self@.published_check(*scope);
        let mut k: usize = 0;
        proof {
            table::lemma_first_fault_whole(self.manifests@, g);
        }
        while k < self.manifests.len()
            invariant
                k <= self.manifests@.len(),
                g == self@.published_check(*scope),
                table::first_fault(self.manifests@.take(k as int), g) is None,
                self@.membership_fault(*scope) == table::first_fault(self.manifests@, g),
            decreases self.manifests@.len() - k,
        {
            proof {
                table::lemma_first_fault_step(self.manifests@, g, k as int);
            }
            self.check_belongs(scope, &self.manifests[k].work)?;
            k += 1;
        }
        proof {
            table::lemma_first_fault_whole(self.manifests@, g);
        }
        Ok(())
    }

    pub fn refresh_scope(&self, scope: &ScopeObservation) -> (r: Result<
        ScopeObservation,
        JournalError,
    >)
        requires
            self@.ordered(),
        ensures
            match r {
                Ok(s) => self@.refreshed(*scope) == Ok::<ScopeObservation, Fault>(s),
                Err(e) => self@.refreshed(*scope) == Err::<ScopeObservation, Fault>(e.fault()),
            },
    {
        proof {
            reveal(Notes::refreshed);
            lemma_declarations_keep_place(self@, self@.operations, *scope);
        }
        let applied = self.apply_declaration_receipts(scope)?;
        let members = self.members_of(scope.scope);
        let count = members.len() as u64;
        check(count <= applied.declared.0, "scope membership exceeds known count")?;
        let complete = applied.seal.is_some() && count == applied.declared.0;
        if complete {
            self.verify_seal(&applied, &members)?;
        }
        let known = ScopeObservation {
            scope: applied.scope,
            producer: applied.producer,
            parent: applied.parent,
            declared: applied.declared,
            seal: applied.seal,
            membership_verified: complete,
        };
        self.validate_known_membership(&known)?;
        Ok(known)
    }

    fn validate_places(&self) -> (r: Result<(), JournalError>)
        ensures
            match r {
                Ok(_) => table::first_fault(self@.scopes, self@.place_check()) is None,
                Err(e) => table::first_fault(self@.scopes, self@.place_check()) == Some(e.fault()),
            },
    {
        let ghost f = self@.place_check();
        let mut i: usize = 0;
        proof {
            table::lemma_first_fault_whole(self.scopes@, f);
        }
        while i < self.scopes.len()
            invariant
                i <= self.scopes@.len(),
                f == self@.place_check(),
                table::first_fault(self.scopes@.take(i as int), f) is None,
            decreases self.scopes@.len() - i,
        {
            proof {
                table::lemma_first_fault_step(self.scopes@, f, i as int);
            }
            self.validate_scope_identity(&self.scopes[i])?;
            i += 1;
        }
        proof {
            table::lemma_first_fault_whole(self.scopes@, f);
        }
        Ok(())
    }

    fn validate_views(&self) -> (r: Result<(), JournalError>)
        ensures
            match r {
                Ok(_) => table::first_fault(self@.observations, self@.view_check()) is None,
                Err(e) => table::first_fault(self@.observations, self@.view_check()) == Some(
                    e.fault(),
                ),
            },
    {
        let ghost f = self@.view_check();
        let mut i: usize = 0;
        proof {
            table::lemma_first_fault_whole(self.observations@, f);
        }
        while i < self.observations.len()
            invariant
                i <= self.observations@.len(),
                f == self@.view_check(),
                table::first_fault(self.observations@.take(i as int), f) is None,
            decreases self.observations@.len() - i,
        {
            proof {
                table::lemma_first_fault_step(self.observations@, f, i as int);
            }
            self.scope_view(&self.observations[i].view)?;
            i += 1;
        }
        proof {
            table::lemma_first_fault_whole(self.observations@, f);
        }
        Ok(())
    }

    fn validate_manifests(&self) -> (r: Result<(), JournalError>)
        ensures
            match r {
                Ok(_) => table::first_fault(self@.manifests, self@.manifest_check()) is None,
                Err(e) => table::first_fault(self@.manifests, self@.manifest_check()) == Some(
                    e.fault(),
                ),
            },
    {
        let ghost f = self@.manifest_check();
        let mut i: usize = 0;
        proof {
            table::lemma_first_fault_whole(self.manifests@, f);
        }
        while i < self.manifests.len()
            invariant
                i <= self.manifests@.len(),
                f == self@.manifest_check(),
                table::first_fault(self.manifests@.take(i as int), f) is None,
            decreases self.manifests@.len() - i,
        {
            proof {
                table::lemma_first_fault_step(self.manifests@, f, i as int);
            }
            self.scope_manifest(&self.manifests[i])?;
            i += 1;
        }
        proof {
            table::lemma_first_fault_whole(self.manifests@, f);
        }
        Ok(())
    }

    fn validate_receipts(&self) -> (r: Result<(), JournalError>)
        ensures
            match r {
                Ok(_) => table::first_fault(self@.operations, self@.work_check()) is None,
                Err(e) => table::first_fault(self@.operations, self@.work_check()) == Some(
                    e.fault(),
                ),
            },
    {
        let ghost f = self@.work_check();
        let mut i: usize = 0;
        proof {
            table::lemma_first_fault_whole(self.operations@, f);
        }
        while i < self.operations.len()
            invariant
                i <= self.operations@.len(),
                f == self@.work_check(),
                table::first_fault(self.operations@.take(i as int), f) is None,
            decreases self.operations@.len() - i,
        {
            proof {
                table::lemma_first_fault_step(self.operations@, f, i as int);
            }
            match (target(&self.operations[i].intent), &self.operations[i].receipt) {
                (Some(work), Some(receipt)) => {
                    self.work_receipt(&work, receipt)?;
                },
                _ => {},
            }
            i += 1;
        }
        proof {
            table::lemma_first_fault_whole(self.operations@, f);
        }
        Ok(())
    }

    pub fn validate_scope_relations(&self) -> (r: Result<(), JournalError>)
        ensures
            match r {
                Ok(_) => self@.relations_fault() is None,
                Err(e) => self@.relations_fault() == Some(e.fault()),
            },
    {
        proof {
            reveal(Notes::relations_fault);
        }
        self.validate_places()?;
        self.validate_views()?;
        self.validate_manifests()?;
        self.validate_receipts()
    }
}

/// Declarations change neither a scope's number nor its place.
proof fn lemma_declarations_keep_place(
    t: Notes,
    entries: Seq<OperationEntry>,
    scope: ScopeObservation,
)
    ensures
        t.with_declarations(entries, scope) matches Ok(s) ==> s.scope == scope.scope && s.producer
            == scope.producer && s.parent == scope.parent,
    decreases entries.len(),
{
    if entries.len() > 0 {
        lemma_declarations_keep_place(t, entries.drop_last(), scope);
    }
}

} // verus!
