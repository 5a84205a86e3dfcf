//! What is known of scopes, and how it binds what is observed of work.

use super::super::authority::store::Fault;
use super::super::authority::table;
use super::super::commitments::{self, Mutation};
use super::super::error::ErrorCode;
use super::super::labels;
use super::super::numbers::{Id, Number, State};
use super::super::records::{ChildScope, Manifest, OperationReceipt, Outcome, WorkKey, WorkView};
use super::super::wire::Wire;
use super::journal::{self, Journal, Notes, OperationEntry};
use super::receipts::{self, check, event_time, integrity, target, terminal_hint, unless};
use super::records::{ObservedWork, ScopeMember, ScopeObservation};
use super::storage::{refuse, Intent, JournalError};
use vstd::prelude::*;

verus! {

/// An end that a membership page reported is the one that was observed, or one that an observed fence
/// leads to.
pub open spec fn hint_fits(hint: State, view: WorkView) -> bool {
    if view.state.terminal() {
        view.state == hint
    } else if view.state.0 == State::CANCELLING {
        hint.0 == State::CANCELLED || hint.0 == State::SKIPPED
    } else {
        true
    }
}

pub fn hint_matches_view(hint: State, view: &WorkView) -> (r: Result<(), JournalError>)
    ensures
        match r {
            Ok(_) => hint_fits(hint, *view),
            Err(e) => !hint_fits(hint, *view) && e.fault() == integrity(),
        },
{
    if view.state.is_terminal() {
        check(view.state == hint, "membership and work terminal states disagree")
    } else if view.state.0 == State::CANCELLING {
        check(
            hint.0 == State::CANCELLED || hint.0 == State::SKIPPED,
            "membership contradicts observed work fence",
        )
    } else {
        Ok(())
    }
}

/// The scope is the one that the work opened.
pub open spec fn is_child(scope: ScopeObservation, work: WorkKey, child: Option<ChildScope>) -> bool {
    scope.parent == Some(work) && (child matches Some(c) && c.scope.0 == scope.scope.0 && c.producer
        == scope.producer)
}

pub fn child_matches(scope: &ScopeObservation, work: &WorkKey, child: &Option<ChildScope>) -> (r:
    Result<(), JournalError>)
    ensures
        match r {
            Ok(_) => is_child(*scope, *work, *child),
            Err(e) => !is_child(*scope, *work, *child) && e.fault() == integrity(),
        },
{
    let parent = match &scope.parent {
        Some(p) => *p == *work,
        None => false,
    };
    let allocated = match child {
        Some(c) => c.scope.0 == scope.scope.0 && c.producer == scope.producer,
        None => false,
    };
    check(parent && allocated, "scope disagrees with immutable parent child allocation")
}

/// What two reports of a scope come to together. A seal freezes the membership; without one the
/// declared number only grows.
pub open spec fn merged(known: ScopeObservation, incoming: ScopeObservation) -> Option<
    ScopeObservation,
> {
    if !(known.scope == incoming.scope && known.producer == incoming.producer && known.parent
        == incoming.parent) {
        None
    } else if known.seal is Some {
        if incoming.declared.0 <= known.declared.0 && (incoming.seal matches Some(s) ==> s
            == known.seal->0 && incoming.declared == known.declared) {
            Some(known)
        } else {
            None
        }
    } else if incoming.seal is Some {
        if incoming.declared.0 >= known.declared.0 {
            Some(incoming)
        } else {
            None
        }
    } else {
        Some(
            ScopeObservation {
                declared: if incoming.declared.0 > known.declared.0 {
                    incoming.declared
                } else {
                    known.declared
                },
                ..known
            },
        )
    }
}

/// A sealed membership stays what it was, whatever is reported later.
pub proof fn law_seal_is_final(known: ScopeObservation, incoming: ScopeObservation)
    requires
        known.seal is Some,
    ensures
        merged(known, incoming) matches Some(kept) ==> kept == known,
{
}

/// The declared number never shrinks.
pub proof fn law_declared_number_grows(known: ScopeObservation, incoming: ScopeObservation)
    ensures
        merged(known, incoming) matches Some(kept) ==> kept.declared.0 >= known.declared.0
            && kept.scope == known.scope && kept.producer == known.producer && kept.parent
            == known.parent,
{
}

pub fn merge(known: &ScopeObservation, incoming: &ScopeObservation) -> (r: Result<
    ScopeObservation,
    JournalError,
>)
    ensures
        match r {
            Ok(s) => merged(*known, *incoming) == Some(s),
            Err(e) => merged(*known, *incoming) is None && e.fault() == integrity(),
        },
{
    check(
        known.scope == incoming.scope && known.producer == incoming.producer && known.parent
            == incoming.parent,
        "scope identity or parent changed",
    )?;
    match &known.seal {
        Some(seal) => {
            let same = match &incoming.seal {
                Some(s) => {
                    proof {
                        labels::lemma_digest_of(*s);
                        labels::lemma_digest_of(*seal);
                    }
                    s.same(seal) && incoming.declared == known.declared
                },
                None => true,
            };
            check(
                incoming.declared.0 <= known.declared.0 && same,
                "sealed scope membership changed",
            )?;
            return Ok(*known);
        },
        None => {},
    }
    if incoming.seal.is_some() {
        check(
            incoming.declared.0 >= known.declared.0,
            "sealed count regressed below known declarations",
        )?;
        return Ok(*incoming);
    }
    Ok(
        ScopeObservation {
            scope: known.scope,
            producer: known.producer,
            parent: known.parent,
            declared: if incoming.declared.0 > known.declared.0 {
                incoming.declared
            } else {
                known.declared
            },
            seal: known.seal,
            membership_verified: known.membership_verified,
        },
    )
}

/// The scope with what a declaration's receipt says of it.
pub open spec fn declaration_applied(scope: ScopeObservation, receipt: OperationReceipt) -> Result<
    ScopeObservation,
    Fault,
> {
    match receipt.body {
        Outcome::Declared { scope: actual, producer, declared, seal, .. } => {
            let evidence = ScopeObservation { declared, seal, membership_verified: false, ..scope };
            if !(scope.scope == actual && scope.producer == producer) {
                Err(integrity())
            } else {
                match merged(scope, evidence) {
                    Some(s) => Ok(s),
                    None => Err(integrity()),
                }
            }
        },
        _ => Err(Fault::Corrupt),
    }
}

pub fn apply_declaration(scope: &ScopeObservation, receipt: &OperationReceipt) -> (r: Result<
    ScopeObservation,
    JournalError,
>)
    ensures
        match r {
            Ok(s) => declaration_applied(*scope, *receipt) == Ok::<ScopeObservation, Fault>(s),
            Err(e) => declaration_applied(*scope, *receipt) == Err::<ScopeObservation, Fault>(
                e.fault(),
            ),
        },
{
    match &receipt.body {
        Outcome::Declared { scope: actual, producer, declared, seal, .. } => {
            check(
                scope.scope == *actual && scope.producer == *producer,
                "scope disagrees with declaration receipt identity",
            )?;
            let evidence = ScopeObservation {
                scope: scope.scope,
                producer: scope.producer,
                parent: scope.parent,
                declared: *declared,
                seal: *seal,
                membership_verified: false,
            };
            merge(scope, &evidence)
        },
        _ => Err(JournalError::Corrupt("declaration receipt kind changed")),
    }
}

pub open spec fn has_parent(work: WorkKey) -> spec_fn(ScopeObservation) -> bool {
    |s: ScopeObservation| s.parent == Some(work)
}

pub open spec fn member_of_scope(scope: Number) -> spec_fn(ScopeMember) -> bool {
    |m: ScopeMember| m.work.scope == scope
}

/// The entry holds a receipt about the work.
pub open spec fn about(entry: OperationEntry, work: WorkKey) -> bool {
    receipts::target_of(entry.intent) == Some(work) && entry.receipt is Some
}

/// The entry holds a receipt of a declaration in the scope.
pub open spec fn declares(entry: OperationEntry, scope: Number) -> bool {
    entry.receipt is Some && (entry.intent.mutation matches Mutation::Declare { scope: s, .. } && s
        == scope)
}

impl Notes {
    /// The member that is the work, where one of its number is known.
    pub open spec fn member_of(self, work: WorkKey) -> Result<Option<int>, Fault> {
        let i = self.member_at(work.scope, work.entity);
        if i >= self.members.len() {
            Ok(None)
        } else if self.members[i].work != work {
            Err(integrity())
        } else {
            Ok(Some(i))
        }
    }

    /// Work may be what is known of its scope: it has the scope's producer, and belongs to a
    /// membership that was verified.
    pub open spec fn may_be_member(self, work: WorkKey) -> bool {
        let s = self.scope_at(work.scope);
        s < self.scopes.len() ==> self.scopes[s].producer == work.producer && (
        self.scopes[s].membership_verified ==> self.member_of(work) matches Ok(Some(_)))
    }

    pub open spec fn child_at(self, work: WorkKey) -> int {
        table::index_where(self.scopes, has_parent(work))
    }

    /// The child that work is said to have opened is the one that is known.
    pub open spec fn child_fits(self, work: WorkKey, child: Option<ChildScope>) -> bool {
        let i = self.child_at(work);
        let j = self.scope_at(Number((child->0).scope.0));
        &&& i < self.scopes.len() ==> is_child(self.scopes[i], work, child)
        &&& child is Some && j < self.scopes.len() ==> is_child(self.scopes[j], work, child)
    }

    /// Scopes are nested: `scope` is `ancestor` or below it. Everything is below the root.
    pub open spec fn descends(self, scope: Number, ancestor: Number) -> bool
        decreases scope.0,
    {
        if ancestor.0 == 0 || scope == ancestor {
            true
        } else if scope.0 < ancestor.0 {
            false
        } else {
            let i = self.scope_at(scope);
            if i >= self.scopes.len() {
                false
            } else {
                match self.scopes[i].parent {
                    Some(parent) => parent.scope.0 < scope.0 && self.descends(
                        parent.scope,
                        ancestor,
                    ),
                    None => false,
                }
            }
        }
    }

    /// What is objected to where `allowed` does not hold of the time of a fence on the scope or an
    /// ancestor.
    pub open spec fn fence_check(self, scope: Number, allowed: spec_fn(Number) -> bool) -> spec_fn(
        OperationEntry,
    ) -> Option<Fault> {
        |e: OperationEntry|
            if !(e.intent.mutation is ScopeCancel && e.receipt is Some) {
                None
            } else {
                match e.receipt->0.body {
                    Outcome::ScopeCancelled { scope: ancestor, accepted_at } => unless(
                        self.descends(scope, ancestor) ==> allowed(accepted_at),
                    ),
                    _ => Some(Fault::Corrupt),
                }
            }
    }

    pub open spec fn fences_fault(self, scope: Number, allowed: spec_fn(Number) -> bool) -> Option<
        Fault,
    > {
        table::first_fault(self.operations, self.fence_check(scope, allowed))
    }

    pub open spec fn child_check(self, scope: ScopeObservation, work: WorkKey) -> spec_fn(
        OperationEntry,
    ) -> Option<Fault> {
        |e: OperationEntry|
            if about(e, work) && e.receipt->0.body is Admitted {
                unless(is_child(scope, work, e.receipt->0.body->child))
            } else {
                None
            }
    }

    /// Why a scope cannot be where it says, if it cannot.
    pub open spec fn place_fault(self, scope: ScopeObservation) -> Option<Fault> {
        let work = scope.parent->0;
        let other = self.child_at(work);
        let o = self.observed_at(work);
        let view = self.observations[o].view;
        if !scope.valid() {
            Some(Fault::Refused(ErrorCode::FrameError))
        } else if scope.declared.0 > self.limits.observations.0 {
            Some(Fault::Refused(ErrorCode::LimitExceeded))
        } else if scope.parent is None {
            None
        } else if !(self.may_be_member(work) && (work.scope.0 != 0 || work.producer.0 == 0) && (other
            < self.scopes.len() ==> self.scopes[other].scope == scope.scope) && (o
            < self.observations.len() && (view.admitted_at is Some || view.state.terminal())
            ==> is_child(scope, work, view.child))) {
            Some(integrity())
        } else {
            table::first_fault(self.operations, self.child_check(scope, work))
        }
    }

    pub open spec fn hint_check(self, work: WorkKey, terminal: State) -> spec_fn(OperationEntry) -> Option<
        Fault,
    > {
        |e: OperationEntry|
            if about(e, work) {
                unless(receipts::hint_allowed(e.receipt->0.body, terminal))
            } else {
                None
            }
    }

    /// Why a member's reported end contradicts what is known of the work, if it does.
    pub open spec fn member_fault(self, member: ScopeMember) -> Option<Fault> {
        let o = self.observed_at(member.work);
        let terminal = member.terminal->0;
        if member.terminal is None {
            None
        } else if !((o < self.observations.len() ==> hint_fits(
            terminal,
            self.observations[o].view,
        )) && (self.manifest_at(member.work) < self.manifests.len() ==> terminal.0
            == State::SUCCEEDED)) {
            Some(integrity())
        } else {
            table::first_fault(self.operations, self.hint_check(member.work, terminal))
        }
    }

    /// What a fence on an ancestor at the given time allows of a view.
    pub open spec fn view_before(view: WorkView) -> spec_fn(Number) -> bool {
        |accepted: Number|
            (view.admitted_at matches Some(admitted) ==> admitted.0 <= accepted.0) && ((view.state.0
                == State::SUCCEEDED || view.state.0 == State::FAILED) ==> (
            view.terminal_at matches Some(at) && at.0 <= accepted.0))
    }

    /// Why a view contradicts what is known of its scope, if it does.
    pub open spec fn scope_view_fault(self, view: WorkView) -> Option<Fault> {
        let member = self.member_of(view.work);
        if !self.may_be_member(view.work) || member is Err {
            Some(integrity())
        } else if member->Ok_0 matches Some(i) && self.members[i].terminal is Some && !hint_fits(
            self.members[i].terminal->0,
            view,
        ) {
            Some(integrity())
        } else if (view.admitted_at is Some || view.state.terminal()) && !self.child_fits(
            view.work,
            view.child,
        ) {
            Some(integrity())
        } else {
            self.fences_fault(view.work.scope, Notes::view_before(view))
        }
    }

    pub open spec fn manifest_before(m: Manifest) -> spec_fn(Number) -> bool {
        |accepted: Number| m.committed_at.0 <= accepted.0
    }

    /// Why a manifest contradicts what is known of its scope, if it does.
    pub open spec fn scope_manifest_fault(self, m: Manifest) -> Option<Fault> {
        let member = self.member_of(m.work);
        if !self.may_be_member(m.work) || member is Err {
            Some(integrity())
        } else if member->Ok_0 matches Some(i) && self.members[i].terminal is Some && (
        self.members[i].terminal->0).0 != State::SUCCEEDED {
            Some(integrity())
        } else {
            self.fences_fault(m.work.scope, Notes::manifest_before(m))
        }
    }

    pub open spec fn entity_check(self, scope: ScopeObservation) -> spec_fn(Id) -> Option<Fault> {
        |entity: Id|
            unless(
                self.member_of(
                    WorkKey { scope: scope.scope, producer: scope.producer, entity },
                ) matches Ok(Some(_)),
            )
    }

    /// Why a declaration is not part of a verified membership, if it is not.
    pub open spec fn declaration_fault(self, scope: ScopeObservation, intent: Intent) -> Option<Fault> {
        match intent.mutation {
            Mutation::Declare { entity_ids, .. } => if scope.membership_verified {
                table::first_fault(entity_ids@, self.entity_check(scope))
            } else {
                None
            },
            _ => None,
        }
    }

    pub open spec fn change_before(time: Number) -> spec_fn(Number) -> bool {
        |accepted: Number| time.0 <= accepted.0
    }

    /// Why a receipt about work contradicts what is known of its scope, if it does.
    pub open spec fn work_receipt_fault(self, work: WorkKey, receipt: OperationReceipt) -> Option<
        Fault,
    > {
        let member = self.member_of(work);
        if !self.may_be_member(work) || member is Err {
            Some(integrity())
        } else if member->Ok_0 matches Some(i) && self.members[i].terminal is Some
            && !receipts::hint_allowed(receipt.body, self.members[i].terminal->0) {
            Some(integrity())
        } else if receipt.body matches Outcome::Admitted { child, .. } && !self.child_fits(
            work,
            child,
        ) {
            Some(integrity())
        } else {
            match receipts::change_time(receipt.body) {
                Some(time) => self.fences_fault(work.scope, Notes::change_before(time)),
                None => None,
            }
        }
    }

    /// Why a receipt contradicts what is known of scopes, if it does.
    pub open spec fn scope_receipt_fault(self, intent: Intent, receipt: OperationReceipt) -> Option<
        Fault,
    > {
        match receipts::target_of(intent) {
            Some(work) => self.work_receipt_fault(work, receipt),
            None => match intent.mutation {
                Mutation::Declare { scope, .. } => {
                    let s = self.scope_at(scope);
                    if s >= self.scopes.len() {
                        None
                    } else {
                        match declaration_applied(self.scopes[s], receipt) {
                            Err(fault) => Some(fault),
                            Ok(observed) => self.declaration_fault(observed, intent),
                        }
                    }
                },
                _ => None,
            },
        }
    }

    /// The scope with every known declaration applied.
    pub open spec fn with_declarations(self, entries: Seq<OperationEntry>, scope: ScopeObservation) -> Result<
        ScopeObservation,
        Fault,
    >
        decreases entries.len(),
    {
        if entries.len() == 0 {
            Ok(scope)
        } else {
            match self.with_declarations(entries.drop_last(), scope) {
                Err(fault) => Err(fault),
                Ok(s) => if declares(entries.last(), scope.scope) {
                    declaration_applied(s, entries.last().receipt->0)
                } else {
                    Ok(s)
                },
            }
        }
    }

    /// The members of a scope in the order of their entities.
    pub open spec fn scope_members(self, scope: Number) -> Seq<ScopeMember> {
        table::rows_where(self.members, member_of_scope(scope))
    }

    pub open spec fn scope_ids(self, scope: Number) -> Seq<Id> {
        self.scope_members(scope).map_values(|m: ScopeMember| m.work.entity)
    }

    /// Members are kept in the order of scope and entity, each valid and none twice.
    pub open spec fn members_ordered(self) -> bool {
        &&& forall|i: int, j: int|
            0 <= i < j < self.members.len() ==> before((#[trigger] self.members[i]).work, (
            #[trigger] self.members[j]).work)
        &&& forall|i: int| 0 <= i < self.members.len() ==> (#[trigger] self.members[i]).valid()
    }

    pub open spec fn producer_check(scope: ScopeObservation) -> spec_fn(ScopeMember) -> Option<Fault> {
        |m: ScopeMember| unless(m.work.producer == scope.producer)
    }

    /// Why the known members are not the sealed membership, if they are not.
    pub open spec fn seal_fault(self, scope: ScopeObservation) -> Option<Fault> {
        let identity = self.bound->0.identity;
        let ids = self.scope_ids(scope.scope);
        let foreign = table::first_fault(
            self.scope_members(scope.scope),
            Notes::producer_check(scope),
        );
        if self.bound is None {
            Some(Fault::Refused(ErrorCode::NotReady))
        } else if !commitments::placeable(
            identity,
            scope.scope,
            scope.producer,
            scope.parent,
            scope.declared,
        ) {
            Some(Fault::Refused(ErrorCode::FrameError))
        } else if foreign is Some {
            foreign
        } else {
            unless(
                commitments::seal_digest(
                    identity,
                    scope.scope,
                    scope.producer,
                    scope.parent,
                    ids,
                ) == (scope.seal->0).0@,
            )
        }
    }

    pub open spec fn declared_check(self, scope: ScopeObservation) -> spec_fn(OperationEntry) -> Option<
        Fault,
    > {
        |e: OperationEntry|
            if declares(e, scope.scope) {
                self.declaration_fault(scope, e.intent)
            } else {
                None
            }
    }

    /// Work of the scope has its producer, and belongs to a verified membership.
    pub open spec fn belongs(self, scope: ScopeObservation, work: WorkKey) -> bool {
        work.scope == scope.scope ==> work.producer == scope.producer && (scope.membership_verified
            ==> self.member_of(work) matches Ok(Some(_)))
    }

    pub open spec fn observed_check(self, scope: ScopeObservation) -> spec_fn(ObservedWork) -> Option<
        Fault,
    > {
        |o: ObservedWork| unless(self.belongs(scope, o.view.work))
    }

    pub open spec fn published_check(self, scope: ScopeObservation) -> spec_fn(Manifest) -> Option<
        Fault,
    > {
        |m: Manifest| unless(self.belongs(scope, m.work))
    }

    /// Why a membership contradicts what is known of work in it, if it does.
    pub open spec fn membership_fault(self, scope: ScopeObservation) -> Option<Fault> {
        let declared = table::first_fault(self.operations, self.declared_check(scope));
        let observed = table::first_fault(self.observations, self.observed_check(scope));
        if declared is Some {
            declared
        } else if observed is Some {
            observed
        } else {
            table::first_fault(self.manifests, self.published_check(scope))
        }
    }

    /// What is known of a scope from all evidence: declarations applied, and the membership verified
    /// against the seal once all of it is known.
    #[verifier::opaque]
    pub open spec fn refreshed(self, scope: ScopeObservation) -> Result<ScopeObservation, Fault> {
        let applied = self.with_declarations(self.operations, scope);
        let s = applied->Ok_0;
        let count = self.scope_members(scope.scope).len();
        let complete = s.seal is Some && count == s.declared.0;
        let known = ScopeObservation { membership_verified: complete, ..s };
        if applied is Err {
            Err(applied->Err_0)
        } else if count > s.declared.0 {
            Err(integrity())
        } else if complete && self.seal_fault(s) is Some {
            Err(self.seal_fault(s)->0)
        } else if self.membership_fault(known) is Some {
            Err(self.membership_fault(known)->0)
        } else {
            Ok(known)
        }
    }

    pub open spec fn place_check(self) -> spec_fn(ScopeObservation) -> Option<Fault> {
        |s: ScopeObservation| self.place_fault(s)
    }

    pub open spec fn view_check(self) -> spec_fn(ObservedWork) -> Option<Fault> {
        |o: ObservedWork| self.scope_view_fault(o.view)
    }

    pub open spec fn manifest_check(self) -> spec_fn(Manifest) -> Option<Fault> {
        |m: Manifest| self.scope_manifest_fault(m)
    }

    pub open spec fn work_check(self) -> spec_fn(OperationEntry) -> Option<Fault> {
        |e: OperationEntry|
            if receipts::target_of(e.intent) is Some && e.receipt is Some {
                self.work_receipt_fault(receipts::target_of(e.intent)->0, e.receipt->0)
            } else {
                None
            }
    }

    /// Why what is known of scopes, views, manifests and receipts does not fit together, if it does not.
    #[verifier::opaque]
    pub open spec fn relations_fault(self) -> Option<Fault> {
        let places = table::first_fault(self.scopes, self.place_check());
        let views = table::first_fault(self.observations, self.view_check());
        let manifests = table::first_fault(self.manifests, self.manifest_check());
        if places is Some {
            places
        } else if views is Some {
            views
        } else if manifests is Some {
            manifests
        } else {
            table::first_fault(self.operations, self.work_check())
        }
    }
}

/// The order of work by scope and entity.
pub open spec fn before(a: WorkKey, b: WorkKey) -> bool {
    a.scope.0 < b.scope.0 || (a.scope.0 == b.scope.0 && a.entity.0 < b.entity.0)
}

impl Journal {
    pub fn find_observed(&self, work: &WorkKey) -> (r: Option<usize>)
        ensures
            match r {
                Some(i) => i == self@.observed_at(*work) && i < self@.observations.len()
                    && self@.observations[i as int].view.work == *work,
                None => self@.observed_at(*work) == self@.observations.len(),
            },
    {
        let ghost p = journal::is_observed(*work);
        let mut i: usize = 0;
        while i < self.observations.len()
            invariant
                i <= self.observations@.len(),
                p == journal::is_observed(*work),
                forall|j: int| 0 <= j < i ==> !p(#[trigger] self.observations@[j]),
            decreases self.observations@.len() - i,
        {
            if self.observations[i].view.work == *work {
                proof {
                    table::lemma_index_unique(self.observations@, p, i as int);
                }
                return Some(i);
            }
            i += 1;
        }
        proof {
            table::lemma_index_unique(self.observations@, p, i as int);
        }
        None
    }

    pub fn find_manifest(&self, work: &WorkKey) -> (r: Option<usize>)
        ensures
            match r {
                Some(i) => i == self@.manifest_at(*work) && i < self@.manifests.len()
                    && self@.manifests[i as int].work == *work,
                None => self@.manifest_at(*work) == self@.manifests.len(),
            },
    {
        let ghost p = journal::is_manifest(*work);
        let mut i: usize = 0;
        while i < self.manifests.len()
            invariant
                i <= self.manifests@.len(),
                p == journal::is_manifest(*work),
                forall|j: int| 0 <= j < i ==> !p(#[trigger] self.manifests@[j]),
            decreases self.manifests@.len() - i,
        {
            if self.manifests[i].work == *work {
                proof {
                    table::lemma_index_unique(self.manifests@, p, i as int);
                }
                return Some(i);
            }
            i += 1;
        }
        proof {
            table::lemma_index_unique(self.manifests@, p, i as int);
        }
        None
    }

    pub fn find_scope(&self, scope: Number) -> (r: Option<usize>)
        ensures
            match r {
                Some(i) => i == self@.scope_at(scope) && i < self@.scopes.len()
                    && self@.scopes[i as int].scope == scope,
                None => self@.scope_at(scope) == self@.scopes.len(),
            },
    {
        let ghost p = journal::is_scope(scope);
        let mut i: usize = 0;
        while i < self.scopes.len()
            invariant
                i <= self.scopes@.len(),
                p == journal::is_scope(scope),
                forall|j: int| 0 <= j < i ==> !p(#[trigger] self.scopes@[j]),
            decreases self.scopes@.len() - i,
        {
            if self.scopes[i].scope == scope {
                proof {
                    table::lemma_index_unique(self.scopes@, p, i as int);
                }
                return Some(i);
            }
            i += 1;
        }
        proof {
            table::lemma_index_unique(self.scopes@, p, i as int);
        }
        None
    }

    pub fn find_child(&self, work: &WorkKey) -> (r: Option<usize>)
        ensures
            match r {
                Some(i) => i == self@.child_at(*work) && i < self@.scopes.len(),
                None => self@.child_at(*work) == self@.scopes.len(),
            },
    {
        let ghost p = has_parent(*work);
        let mut i: usize = 0;
        while i < self.scopes.len()
            invariant
                i <= self.scopes@.len(),
                p == has_parent(*work),
                forall|j: int| 0 <= j < i ==> !p(#[trigger] self.scopes@[j]),
            decreases self.scopes@.len() - i,
        {
            let here = match &self.scopes[i].parent {
                Some(parent) => *parent == *work,
                None => false,
            };
            if here {
                proof {
                    table::lemma_index_unique(self.scopes@, p, i as int);
                }
                return Some(i);
            }
            i += 1;
        }
        proof {
            table::lemma_index_unique(self.scopes@, p, i as int);
        }
        None
    }

    pub fn find_member(&self, scope: Number, entity: Id) -> (r: Option<usize>)
        ensures
            match r {
                Some(i) => i == self@.member_at(scope, entity) && i < self@.members.len()
                    && self@.members[i as int].work.scope == scope
                    && self@.members[i as int].work.entity == entity,
                None => self@.member_at(scope, entity) == self@.members.len(),
            },
    {
        let ghost p = journal::is_member(scope, entity);
        let mut i: usize = 0;
        while i < self.members.len()
            invariant
                i <= self.members@.len(),
                p == journal::is_member(scope, entity),
                forall|j: int| 0 <= j < i ==> !p(#[trigger] self.members@[j]),
            decreases self.members@.len() - i,
        {
            if self.members[i].work.scope == scope && self.members[i].work.entity == entity {
                proof {
                    table::lemma_index_unique(self.members@, p, i as int);
                }
                return Some(i);
            }
            i += 1;
        }
        proof {
            table::lemma_index_unique(self.members@, p, i as int);
        }
        None
    }

    /// The member that is the work.
    pub fn read_member(&self, work: &WorkKey) -> (r: Result<Option<usize>, JournalError>)
        ensures
            match r {
                Ok(Some(i)) => self@.member_of(*work) == Ok::<Option<int>, Fault>(Some(i as int)) && i
                    < self@.members.len(),
                Ok(None) => self@.member_of(*work) == Ok::<Option<int>, Fault>(None),
                Err(e) => self@.member_of(*work) == Err::<Option<int>, Fault>(e.fault())
                    && e.fault() == integrity(),
            },
    {
        match self.find_member(work.scope, work.entity) {
            Some(i) => {
                check(self.members[i].work == *work, "member identity index changed")?;
                Ok(Some(i))
            },
            None => Ok(None),
        }
    }

    pub fn known_member(&self, work: &WorkKey) -> (r: Result<(), JournalError>)
        ensures
            match r {
                Ok(_) => self@.may_be_member(*work),
                Err(e) => !self@.may_be_member(*work) && e.fault() == integrity(),
            },
    {
        match self.find_scope(work.scope) {
            Some(s) => {
                check(
                    self.scopes[s].producer == work.producer,
                    "work disagrees with observed scope producer",
                )?;
                if self.scopes[s].membership_verified {
                    let member = self.read_member(work)?;
                    check(member.is_some(), "work absent from verified sealed membership")?;
                }
            },
            None => {},
        }
        Ok(())
    }

    pub fn known_child(&self, work: &WorkKey, child: &Option<ChildScope>) -> (r: Result<
        (),
        JournalError,
    >)
        ensures
            match r {
                Ok(_) => self@.child_fits(*work, *child),
                Err(e) => !self@.child_fits(*work, *child) && e.fault() == integrity(),
            },
    {
        match self.find_child(work) {
            Some(i) => {
                child_matches(&self.scopes[i], work, child)?;
            },
            None => {},
        }
        match child {
            Some(c) => match self.find_scope(Number(c.scope.0)) {
                Some(j) => {
                    child_matches(&self.scopes[j], work, child)?;
                },
                None => {},
            },
            None => {},
        }
        Ok(())
    }

    fn descendant_of(&self, scope: Number, ancestor: Number) -> (r: bool)
        ensures
            r == self@.descends(scope, ancestor),
    {
        if ancestor.0 == 0 {
            return true;
        }
        let mut current = scope;
        loop
            invariant
                ancestor.0 != 0,
                self@.descends(current, ancestor) == self@.descends(scope, ancestor),
            decreases current.0,
        {
            if current == ancestor {
                return true;
            }
            if current.0 < ancestor.0 {
                return false;
            }
            let i = match self.find_scope(current) {
                Some(i) => i,
                None => {
                    return false;
                },
            };
            match &self.scopes[i].parent {
                Some(parent) => {
                    // Scope record validation enforces strictly decreasing parent IDs.
                    if parent.scope.0 >= current.0 {
                        return false;
                    }
                    current = parent.scope;
                },
                None => {
                    return false;
                },
            }
        }
    }

    /// The time of a fence on the scope or an ancestor, if the entry holds one.
    fn fence_time(&self, i: usize, scope: Number) -> (r: Result<Option<Number>, JournalError>)
        requires
            i < self@.operations.len(),
        ensures
            ({
                let e = self@.operations[i as int];
                let fence = e.intent.mutation is ScopeCancel && e.receipt is Some;
                match r {
                    Err(x) => fence && !(e.receipt->0.body is ScopeCancelled) && x.fault()
                        == Fault::Corrupt,
                    Ok(None) => fence ==> (e.receipt->0.body matches Outcome::ScopeCancelled {
                        scope: ancestor,
                        ..
                    } && !self@.descends(scope, ancestor)),
                    Ok(Some(at)) => fence && (e.receipt->0.body matches Outcome::ScopeCancelled {
                        scope: ancestor,
                        accepted_at,
                    } && self@.descends(scope, ancestor) && accepted_at == at),
                }
            }),
    {
        match (&self.operations[i].intent.mutation, &self.operations[i].receipt) {
            (Mutation::ScopeCancel { .. }, Some(receipt)) => match &receipt.body {
                Outcome::ScopeCancelled { scope: ancestor, accepted_at } => if self.descendant_of(
                    scope,
                    *ancestor,
                ) {
                    Ok(Some(*accepted_at))
                } else {
                    Ok(None)
                },
                _ => Err(JournalError::Corrupt("scope fence kind changed")),
            },
            _ => Ok(None),
        }
    }

    pub fn validate_scope_identity(&self, scope: &ScopeObservation) -> (r: Result<(), JournalError>)
        ensures
            match r {
                Ok(_) => self@.place_fault(*scope) is None,
                Err(e) => self@.place_fault(*scope) == Some(e.fault()),
            },
    {
        match scope.check() {
            Ok(_) => {},
            Err(e) => {
                return Err(JournalError::Protocol(e));
            },
        }
        if scope.declared.0 > self.limits.observations.0 {
            return Err(refuse(ErrorCode::LimitExceeded, "client scope inventory ceiling"));
        }
        let parent = match scope.parent {
            Some(parent) => parent,
            None => {
                return Ok(());
            },
        };
        self.known_member(&parent)?;
        check(
            parent.scope.0 != 0 || parent.producer.0 == 0,
            "child names impossible root producer",
        )?;
        match self.find_child(&parent) {
            Some(other) => {
                check(
                    self.scopes[other].scope == scope.scope,
                    "parent acquired a second child scope",
                )?;
            },
            None => {},
        }
        match self.find_observed(&parent) {
            Some(o) => {
                let view = &self.observations[o].view;
                if view.admitted_at.is_some() || view.state.is_terminal() {
                    child_matches(scope, &parent, &view.child)?;
                }
            },
            None => {},
        }
        let ghost f = self@.child_check(*scope, parent);
        let mut i: usize = 0;
        proof {
            table::lemma_first_fault_whole(self.operations@, f);
        }
        while i < self.operations.len()
            invariant
                i <= self.operations@.len(),
                f == self@.child_check(*scope, parent),
                table::first_fault(self.operations@.take(i as int), f) is None,
                self@.place_fault(*scope) == table::first_fault(self.operations@, f),
            decreases self.operations@.len() - i,
        {
            proof {
                table::lemma_first_fault_step(self.operations@, f, i as int);
            }
            let concerns = match target(&self.operations[i].intent) {
                Some(work) => work == parent,
                None => false,
            };
            if concerns {
                match &self.operations[i].receipt {
                    Some(receipt) => match &receipt.body {
                        Outcome::Admitted { child, .. } => {
                            child_matches(scope, &parent, child)?;
                        },
                        _ => {},
                    },
                    None => {},
                }
            }
            i += 1;
        }
        proof {
            table::lemma_first_fault_whole(self.operations@, f);
        }
        Ok(())
    }

    pub fn validate_member(&self, member: &ScopeMember) -> (r: Result<(), JournalError>)
        ensures
            match r {
                Ok(_) => self@.member_fault(*member) is None,
                Err(e) => self@.member_fault(*member) == Some(e.fault()),
            },
    {
        let terminal = match member.terminal {
            Some(terminal) => terminal,
            None => {
                return Ok(());
            },
        };
        match self.find_observed(&member.work) {
            Some(o) => {
                hint_matches_view(terminal, &self.observations[o].view)?;
            },
            None => {},
        }
        if self.find_manifest(&member.work).is_some() {
            check(
                terminal.0 == State::SUCCEEDED,
                "membership contradicts retained success manifest",
            )?;
        }
        let work = member.work;
        let ghost f = self@.hint_check(work, terminal);
        let mut i: usize = 0;
        proof {
            table::lemma_first_fault_whole(self.operations@, f);
        }
        while i < self.operations.len()
            invariant
                i <= self.operations@.len(),
                f == self@.hint_check(work, terminal),
                table::first_fault(self.operations@.take(i as int), f) is None,
                self@.member_fault(*member) == table::first_fault(self.operations@, f),
            decreases self.operations@.len() - i,
        {
            proof {
                table::lemma_first_fault_step(self.operations@, f, i as int);
            }
            let concerns = match target(&self.operations[i].intent) {
                Some(other) => other == work,
                None => false,
            };
            if concerns {
                match &self.operations[i].receipt {
                    Some(receipt) => {
                        terminal_hint(&receipt.body, terminal)?;
                    },
                    None => {},
                }
            }
            i += 1;
        }
        proof {
            table::lemma_first_fault_whole(self.operations@, f);
        }
        Ok(())
    }

    pub fn scope_view(&self, view: &WorkView) -> (r: Result<(), JournalError>)
        ensures
            match r {
                Ok(_) => self@.scope_view_fault(*view) is None,
                Err(e) => self@.scope_view_fault(*view) == Some(e.fault()),
            },
    {
        self.known_member(&view.work)?;
        match self.read_member(&view.work)? {
            Some(i) => match self.members[i].terminal {
                Some(terminal) => {
                    hint_matches_view(terminal, view)?;
                },
                None => {},
            },
            None => {},
        }
        if view.admitted_at.is_some() || view.state.is_terminal() {
            self.known_child(&view.work, &view.child)?;
        }
        let scope = view.work.scope;
        let ghost allowed = Notes::view_before(*view);
        let ghost f = self@.fence_check(scope, allowed);
        let mut i: usize = 0;
        proof {
            table::lemma_first_fault_whole(self.operations@, f);
        }
        while i < self.operations.len()
            invariant
                i <= self.operations@.len(),
                allowed == Notes::view_before(*view),
                f == self@.fence_check(scope, allowed),
                table::first_fault(self.operations@.take(i as int), f) is None,
                self@.scope_view_fault(*view) == table::first_fault(self.operations@, f),
            decreases self.operations@.len() - i,
        {
            proof {
                table::lemma_first_fault_step(self.operations@, f, i as int);
            }
            match self.fence_time(i, scope)? {
                Some(accepted) => {
                    let admitted = match view.admitted_at {
                        Some(admitted) => admitted.0 <= accepted.0,
                        None => true,
                    };
                    check(admitted, "admission follows known ancestor fence")?;
                    if view.state.0 == State::SUCCEEDED || view.state.0 == State::FAILED {
                        let ended = match view.terminal_at {
                            Some(at) => at.0 <= accepted.0,
                            None => false,
                        };
                        check(ended, "terminal publication follows known ancestor fence")?;
                    }
                },
                None => {},
            }
            i += 1;
        }
        proof {
            table::lemma_first_fault_whole(self.operations@, f);
        }
        Ok(())
    }

    pub fn scope_manifest(&self, manifest: &Manifest) -> (r: Result<(), JournalError>)
        ensures
            match r {
                Ok(_) => self@.scope_manifest_fault(*manifest) is None,
                Err(e) => self@.scope_manifest_fault(*manifest) == Some(e.fault()),
            },
    {
        self.known_member(&manifest.work)?;
        match self.read_member(&manifest.work)? {
            Some(i) => match self.members[i].terminal {
                Some(terminal) => {
                    check(
                        terminal.0 == State::SUCCEEDED,
                        "manifest contradicts terminal membership",
                    )?;
                },
                None => {},
            },
            None => {},
        }
        let scope = manifest.work.scope;
        let ghost allowed = Notes::manifest_before(*manifest);
        let ghost f = self@.fence_check(scope, allowed);
        let mut i: usize = 0;
        proof {
            table::lemma_first_fault_whole(self.operations@, f);
        }
        while i < self.operations.len()
            invariant
                i <= self.operations@.len(),
                allowed == Notes::manifest_before(*manifest),
                f == self@.fence_check(scope, allowed),
                table::first_fault(self.operations@.take(i as int), f) is None,
                self@.scope_manifest_fault(*manifest) == table::first_fault(self.operations@, f),
            decreases self.operations@.len() - i,
        {
            proof {
                table::lemma_first_fault_step(self.operations@, f, i as int);
            }
            match self.fence_time(i, scope)? {
                Some(accepted) => {
                    check(
                        manifest.committed_at.0 <= accepted.0,
                        "manifest committed after known ancestor fence",
                    )?;
                },
                None => {},
            }
            i += 1;
        }
        proof {
            table::lemma_first_fault_whole(self.operations@, f);
        }
        Ok(())
    }

    pub fn work_receipt(&self, work: &WorkKey, receipt: &OperationReceipt) -> (r: Result<
        (),
        JournalError,
    >)
        ensures
            match r {
                Ok(_) => self@.work_receipt_fault(*work, *receipt) is None,
                Err(e) => self@.work_receipt_fault(*work, *receipt) == Some(e.fault()),
            },
    {
        self.known_member(work)?;
        match self.read_member(work)? {
            Some(i) => match self.members[i].terminal {
                Some(terminal) => {
                    terminal_hint(&receipt.body, terminal)?;
                },
                None => {},
            },
            None => {},
        }
        match &receipt.body {
            Outcome::Admitted { child, .. } => {
                self.known_child(work, child)?;
            },
            _ => {},
        }
        let time = match event_time(&receipt.body) {
            Some(time) => time,
            None => {
                return Ok(());
            },
        };
        let scope = work.scope;
        let ghost allowed = Notes::change_before(time);
        let ghost f = self@.fence_check(scope, allowed);
        let mut i: usize = 0;
        proof {
            table::lemma_first_fault_whole(self.operations@, f);
        }
        while i < self.operations.len()
            invariant
                i <= self.operations@.len(),
                allowed == Notes::change_before(time),
                f == self@.fence_check(scope, allowed),
                table::first_fault(self.operations@.take(i as int), f) is None,
                self@.work_receipt_fault(*work, *receipt) == table::first_fault(
                    self.operations@,
                    f,
                ),
            decreases self.operations@.len() - i,
        {
            proof {
                table::lemma_first_fault_step(self.operations@, f, i as int);
            }
            match self.fence_time(i, scope)? {
                Some(accepted) => {
                    check(
                        time.0 <= accepted.0,
                        "work mutation committed after known ancestor fence",
                    )?;
                },
                None => {},
            }
            i += 1;
        }
        proof {
            table::lemma_first_fault_whole(self.operations@, f);
        }
        Ok(())
    }

    pub fn check_declaration_members(&self, scope: &ScopeObservation, intent: &Intent) -> (r: Result<
        (),
        JournalError,
    >)
        ensures
            match r {
                Ok(_) => self@.declaration_fault(*scope, *intent) is None,
                Err(e) => self@.declaration_fault(*scope, *intent) == Some(e.fault()),
            },
    {
        match &intent.mutation {
            Mutation::Declare { entity_ids, .. } => {
                if !scope.membership_verified {
                    return Ok(());
                }
                let ghost f = self@.entity_check(*scope);
                let mut i: usize = 0;
                proof {
                    table::lemma_first_fault_whole(entity_ids@, f);
                }
                while i < entity_ids.len()
                    invariant
                        i <= entity_ids@.len(),
                        f == self@.entity_check(*scope),
                        table::first_fault(entity_ids@.take(i as int), f) is None,
                        self@.declaration_fault(*scope, *intent) == table::first_fault(
                            entity_ids@,
                            f,
                        ),
                    decreases entity_ids@.len() - i,
                {
                    proof {
                        table::lemma_first_fault_step(entity_ids@, f, i as int);
                    }
                    let work = WorkKey {
                        scope: scope.scope,
                        producer: scope.producer,
                        entity: entity_ids[i],
                    };
                    let member = self.read_member(&work)?;
                    check(member.is_some(), "declaration omitted from verified membership")?;
                    i += 1;
                }
                proof {
                    table::lemma_first_fault_whole(entity_ids@, f);
                }
                Ok(())
            },
            _ => Ok(()),
        }
    }

    pub fn scope_receipt(&self, intent: &Intent, receipt: &OperationReceipt) -> (r: Result<
        (),
        JournalError,
    >)
        ensures
            match r {
                Ok(_) => self@.scope_receipt_fault(*intent, *receipt) is None,
                Err(e) => self@.scope_receipt_fault(*intent, *receipt) == Some(e.fault()),
            },
    {
        match target(intent) {
            Some(work) => self.work_receipt(&work, receipt),
            None => match &intent.mutation {
                Mutation::Declare { scope, .. } => match self.find_scope(*scope) {
                    Some(s) => {
                        let observed = apply_declaration(&self.scopes[s], receipt)?;
                        self.check_declaration_members(&observed, intent)
                    },
                    None => Ok(()),
                },
                _ => Ok(()),
            },
        }
    }
}

} // verus!
