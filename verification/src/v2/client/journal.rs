//! One immutable creation/session per journal: its intents, its receipts and what was observed.
//! Nothing is evicted.

use super::super::authority::scopes;
use super::super::authority::store::Fault;
use super::super::authority::table;
use super::super::commitments::{Mutation, SessionIdentity};
use super::super::error::{
    Error, ErrorCode, DURABLE_WORK, INITIAL_CONTROL_LIMIT, MAX_NUMBER, RESULT_DELIVERY,
};
use super::super::labels::OperationId;
use super::super::messages::{Control, Session};
use super::super::negotiation::Capabilities;
use super::super::numbers::{Id, Number, OutputIndex, PageLimit};
use super::super::records::{Limits, Manifest, OperationReceipt, Policy, ScopeSummary, WorkKey};
use super::super::wire::Wire;
use super::durability;
use super::records::{
    Creation, JournalLimits, ObservedWork, ReferenceChoice, ScopeMember, ScopeObservation,
};
use super::storage::{self, intent_image, refuse, Intent, JournalError};
use super::upkeep;
use vstd::prelude::*;

verus! {

impl Creation {
    /// The request that creates the session.
    pub open spec fn creating(self, request: Id) -> Control {
        Control::Session(
            Session::Create {
                request,
                creation_sequence: self.creation_sequence,
                policy: self.policy,
            },
        )
    }

    pub fn request(&self, request: Id) -> (r: Result<Control, Error>)
        ensures
            match r {
                Ok(c) => self.valid() && self.creating(request).sendable(INITIAL_CONTROL_LIMIT) && c
                    == self.creating(request),
                Err(e) => e.code == ErrorCode::FrameError && !(self.valid() && self.creating(
                    request,
                ).sendable(INITIAL_CONTROL_LIMIT)),
            },
    {
        self.check()?;
        let control = Control::Session(
            Session::Create {
                request,
                creation_sequence: self.creation_sequence,
                policy: self.policy,
            },
        );
        control.encode(INITIAL_CONTROL_LIMIT)?;
        Ok(control)
    }

    /// Why a connection cannot serve the session, if it cannot.
    pub open spec fn selection_refusal(self, selected: Capabilities) -> Option<ErrorCode> {
        if !selected.valid() {
            Some(selected.refusal())
        } else if selected.response.0 != 1 || !selected.supports(DURABLE_WORK) || selected.supports(
            RESULT_DELIVERY,
        ) != self.results {
            Some(ErrorCode::ExtensionUnsupported)
        } else {
            None
        }
    }

    /// Reconnection may negotiate different limits, but never a different
    /// durable profile combination. The server still checks retained geometry.
    pub fn validate_selection(&self, selected: &Capabilities) -> (r: Result<(), Error>)
        ensures
            match r {
                Ok(_) => self.selection_refusal(*selected) is None,
                Err(e) => self.selection_refusal(*selected) == Some(e.code),
            },
    {
        selected.check()?;
        if selected.response.0 != 1 || !selected.has(DURABLE_WORK) || selected.has(RESULT_DELIVERY)
            != self.results {
            return Err(
                Error::new(
                    ErrorCode::ExtensionUnsupported,
                    "journal profile combination changed",
                ),
            );
        }
        Ok(())
    }
}

/// The session that the authority bound to the creation.
#[derive(Debug, Clone, PartialEq, Eq)]
pub struct BoundSession {
    pub identity: SessionIdentity,
    pub creation_sequence: Id,
    pub policy: Policy,
    pub limits: Limits,
}

impl BoundSession {
    pub open spec fn agrees(self, other: BoundSession) -> bool {
        &&& self.identity.agrees(other.identity)
        &&& self.creation_sequence == other.creation_sequence
        &&& self.policy == other.policy
        &&& self.limits == other.limits
    }

    /// The response that announced the session, whatever request it answered.
    pub open spec fn announced_by(self, response: Control) -> bool {
        response matches Control::Session(
            Session::Binding { authority, owner, generation, creation_sequence, policy, limits, .. },
        ) && authority.0@ == self.identity.authority.0@ && owner.0@ == self.identity.owner.0@
            && generation == self.identity.generation && creation_sequence == self.creation_sequence
            && policy == self.policy && limits == self.limits
    }
}

/// An intent and the receipt that answered it, if one did.
#[derive(Debug, Clone)]
pub struct OperationEntry {
    pub row: u64,
    pub intent: Intent,
    pub receipt: Option<OperationReceipt>,
}

/// A selected output.
#[derive(Debug, Clone, Copy)]
pub struct ReferenceEntry {
    pub work: WorkKey,
    pub choice: ReferenceChoice,
}

/// One immutable creation/session per journal.
pub struct Journal {
    pub creation: Creation,
    pub limits: JournalLimits,
    pub bound: Option<BoundSession>,
    pub operations: Vec<OperationEntry>,
    pub observations: Vec<ObservedWork>,
    pub manifests: Vec<Manifest>,
    pub references: Vec<ReferenceEntry>,
    pub scopes: Vec<ScopeObservation>,
    pub members: Vec<ScopeMember>,
    pub coverage: Vec<ScopeSummary>,
}

/// What is written down, as sequences.
pub struct Notes {
    pub creation: Creation,
    pub limits: JournalLimits,
    pub bound: Option<BoundSession>,
    pub operations: Seq<OperationEntry>,
    pub observations: Seq<ObservedWork>,
    pub manifests: Seq<Manifest>,
    pub references: Seq<ReferenceEntry>,
    pub scopes: Seq<ScopeObservation>,
    pub members: Seq<ScopeMember>,
    pub coverage: Seq<ScopeSummary>,
}

impl View for Journal {
    type V = Notes;

    open spec fn view(&self) -> Notes {
        Notes {
            creation: self.creation,
            limits: self.limits,
            bound: self.bound,
            operations: self.operations@,
            observations: self.observations@,
            manifests: self.manifests@,
            references: self.references@,
            scopes: self.scopes@,
            members: self.members@,
            coverage: self.coverage@,
        }
    }
}

pub open spec fn is_intent(id: Seq<u8>) -> spec_fn(OperationEntry) -> bool {
    |e: OperationEntry| e.intent.operation.0@ == id
}

pub open spec fn is_observed(work: WorkKey) -> spec_fn(ObservedWork) -> bool {
    |o: ObservedWork| o.view.work == work
}

pub open spec fn is_manifest(work: WorkKey) -> spec_fn(Manifest) -> bool {
    |m: Manifest| m.work == work
}

pub open spec fn is_reference(work: WorkKey, index: OutputIndex) -> spec_fn(ReferenceEntry) -> bool {
    |e: ReferenceEntry| e.work == work && e.choice.index == index
}

pub open spec fn is_scope(scope: Number) -> spec_fn(ScopeObservation) -> bool {
    |s: ScopeObservation| s.scope == scope
}

pub open spec fn is_member(scope: Number, entity: Id) -> spec_fn(ScopeMember) -> bool {
    |m: ScopeMember| m.work.scope == scope && m.work.entity == entity
}

pub open spec fn is_coverage(scope: Number) -> spec_fn(ScopeSummary) -> bool {
    |s: ScopeSummary| s.scope == scope
}

/// Entries behind a row that no receipt has answered.
pub open spec fn is_unresolved(after: Number) -> spec_fn(OperationEntry) -> bool {
    |e: OperationEntry| e.row > after.0 && e.receipt is None
}

impl Notes {
    pub open spec fn operation_at(self, id: Seq<u8>) -> int {
        table::index_where(self.operations, is_intent(id))
    }

    pub open spec fn observed_at(self, work: WorkKey) -> int {
        table::index_where(self.observations, is_observed(work))
    }

    pub open spec fn manifest_at(self, work: WorkKey) -> int {
        table::index_where(self.manifests, is_manifest(work))
    }

    pub open spec fn reference_at(self, work: WorkKey, index: OutputIndex) -> int {
        table::index_where(self.references, is_reference(work, index))
    }

    pub open spec fn scope_at(self, scope: Number) -> int {
        table::index_where(self.scopes, is_scope(scope))
    }

    pub open spec fn member_at(self, scope: Number, entity: Id) -> int {
        table::index_where(self.members, is_member(scope, entity))
    }

    pub open spec fn coverage_at(self, scope: Number) -> int {
        table::index_where(self.coverage, is_coverage(scope))
    }

    /// The notes are arranged, pass the audit and can be written down.
    pub open spec fn well_formed(self) -> bool {
        self.arranged() && self.audit_fault() is None && durability::compact(self)
    }

    /// The notes are in order, and every retained receipt answers its intent.
    pub open spec fn arranged(self) -> bool {
        &&& self.ordered()
        &&& forall|i: int|
            0 <= i < self.operations.len() ==> answers(
                #[trigger] self.operations[i],
                self.bound->0.identity,
            )
    }

    /// Rows stand in the order of their numbers, operations belong to a bound session, every scope is
    /// newer than its parent, scopes and members stand in order, and nothing is observed before the
    /// session is bound.
    pub open spec fn ordered(self) -> bool {
        &&& self.creation.valid()
        &&& self.limits.valid()
        &&& self.bound matches Some(b) ==> b.identity.generation.valid()
        &&& self.operations.len() > 0 ==> self.bound is Some
        &&& forall|i: int, j: int|
            0 <= i < j < self.operations.len() ==> (#[trigger] self.operations[i]).row < (
            #[trigger] self.operations[j]).row
        &&& forall|i: int|
            0 <= i < self.operations.len() ==> 1 <= (#[trigger] self.operations[i]).row <= MAX_NUMBER
        &&& forall|i: int| 0 <= i < self.scopes.len() ==> (#[trigger] self.scopes[i]).valid()
        &&& forall|i: int, j: int|
            0 <= i < j < self.scopes.len() ==> (#[trigger] self.scopes[i]).scope.0 < (
            #[trigger] self.scopes[j]).scope.0
        &&& self.members_ordered()
        &&& self.bound is None ==> self.unobserved()
        &&& self.distinct()
    }

    /// No work is observed twice, and none has two manifests.
    pub open spec fn distinct(self) -> bool {
        works_distinct(self.observations, self.manifests)
    }

    /// Nothing was observed yet.
    pub open spec fn unobserved(self) -> bool {
        &&& self.observations.len() == 0
        &&& self.manifests.len() == 0
        &&& self.references.len() == 0
        &&& self.scopes.len() == 0
        &&& self.members.len() == 0
        &&& self.coverage.len() == 0
    }

    /// The last row that was given out.
    pub open spec fn last_row(self) -> u64 {
        if self.operations.len() == 0 {
            0
        } else {
            self.operations.last().row
        }
    }

    /// Why an intent of an operation is not handed out, if it is not.
    pub open spec fn intent_fault(self, operation: OperationId) -> Option<Fault> {
        if !operation.valid() {
            Some(Fault::Refused(ErrorCode::FrameError))
        } else if self.operation_at(operation.0@) >= self.operations.len() {
            Some(Fault::Refused(ErrorCode::NotFound))
        } else {
            None
        }
    }

    pub open spec fn prepare_fault(self, intent: Intent) -> Option<Fault> {
        let i = self.operation_at(intent.operation.0@);
        let image = storage::intent_fault(intent, self.bound->0.identity);
        if self.bound is None {
            Some(Fault::Refused(ErrorCode::NotReady))
        } else if image is Some {
            image
        } else if i < self.operations.len() {
            if self.operations[i].intent.agrees(intent) {
                None
            } else {
                Some(Fault::Refused(ErrorCode::Conflict))
            }
        } else if self.operations.len() >= self.limits.operations.0 || self.last_row() >= MAX_NUMBER {
            Some(Fault::Refused(ErrorCode::LimitExceeded))
        } else {
            None
        }
    }
}

/// No work occurs twice among the observations, nor among the manifests.
#[verifier::opaque]
pub open spec fn works_distinct(observations: Seq<ObservedWork>, manifests: Seq<Manifest>) -> bool {
    &&& forall|i: int, j: int|
        0 <= i < j < observations.len() ==> (#[trigger] observations[i]).view.work != (
        #[trigger] observations[j]).view.work
    &&& forall|i: int, j: int|
        0 <= i < j < manifests.len() ==> (#[trigger] manifests[i]).work != (
        #[trigger] manifests[j]).work
}

/// The receipt of an entry answers its intent.
pub open spec fn answers(entry: OperationEntry, identity: SessionIdentity) -> bool {
    entry.receipt matches Some(r) ==> storage::receipt_fault(entry.intent, identity, r) is None
}

/// Preparing what was prepared before changes nothing, whatever has become of it since.
pub proof fn law_preparation_is_idempotent(t: Notes, intent: Intent)
    requires
        t.bound is Some,
        storage::intent_fault(intent, t.bound->0.identity) is None,
        t.operation_at(intent.operation.0@) < t.operations.len(),
        t.operations[t.operation_at(intent.operation.0@)].intent.agrees(intent),
    ensures
        t.prepare_fault(intent) is None,
{
}

pub fn same_mutation(a: &Mutation, b: &Mutation) -> (r: bool)
    ensures
        r == a.agrees(*b),
{
    match (a, b) {
        (Mutation::Admit(x), Mutation::Admit(y)) => x.same(y),
        (
            Mutation::Declare { scope: s, entity_ids: i, seal: f },
            Mutation::Declare { scope: t, entity_ids: j, seal: g },
        ) => {
            let ids = i.same(j);
            proof {
                if ids {
                    assert(i@ =~= j@);
                } else if i@ == j@ {
                    i.agrees_reflexive();
                }
            }
            *s == *t && ids && *f == *g
        },
        (
            Mutation::Retry { work: w, expected_attempt: m },
            Mutation::Retry { work: x, expected_attempt: n },
        ) => *w == *x && *m == *n,
        (Mutation::Cancel { work: w }, Mutation::Cancel { work: x }) => *w == *x,
        (Mutation::Skip { work: w }, Mutation::Skip { work: x }) => *w == *x,
        (Mutation::ScopeCancel { scope: s }, Mutation::ScopeCancel { scope: t }) => *s == *t,
        _ => false,
    }
}

impl Journal {
    /// New history only.
    pub fn initialize(creation: Creation, limits: JournalLimits) -> (r: Result<Self, JournalError>)
        ensures
            match r {
                Ok(j) => {
                    &&& creation.valid() && limits.valid()
                    &&& j@.well_formed()
                    &&& j@.creation == creation
                    &&& j@.limits == limits
                    &&& j@.bound is None
                    &&& j@.operations.len() == 0
                    &&& j@.observations.len() == 0
                    &&& j@.manifests.len() == 0
                    &&& j@.references.len() == 0
                    &&& j@.scopes.len() == 0
                    &&& j@.members.len() == 0
                    &&& j@.coverage.len() == 0
                },
                Err(e) => !(creation.valid() && limits.valid()) && e.fault() == Fault::Refused(
                    ErrorCode::FrameError,
                ),
            },
    {
        match creation.check() {
            Ok(_) => {},
            Err(e) => {
                return Err(JournalError::Protocol(e));
            },
        }
        match limits.check() {
            Ok(_) => {},
            Err(e) => {
                return Err(JournalError::Protocol(e));
            },
        }
        let journal = Journal {
            creation,
            limits,
            bound: None,
            operations: Vec::new(),
            observations: Vec::new(),
            manifests: Vec::new(),
            references: Vec::new(),
            scopes: Vec::new(),
            members: Vec::new(),
            coverage: Vec::new(),
        };
        proof {
            upkeep::law_new_journal_passes_the_audit(journal@);
            durability::law_new_journal_is_compact(journal@);
        }
        Ok(journal)
    }

    pub fn creation(&self) -> (r: &Creation)
        ensures
            *r == self@.creation,
    {
        &self.creation
    }

    /// Returns the authenticated binding only after its local durable commit.
    /// Call after wire correlation and TLS authority/owner verification. A CBOR
    /// record supplied directly to this library is not authenticated by it.
    pub fn record_binding(&mut self, response: &Control, selected: &Capabilities) -> (r: Result<
        (),
        JournalError,
    >)
        requires
            old(self)@.well_formed(),
        ensures
            final(self)@.well_formed(),
            binding_recorded(old(self)@, *response, *selected, r, final(self)@),
    {
        match self.creation.validate_selection(selected) {
            Ok(_) => {},
            Err(e) => {
                return Err(JournalError::Protocol(e));
            },
        }
        let normalized = storage::binding(response)?;
        match normalized {
            Control::Session(
                Session::Binding {
                    request,
                    authority,
                    owner,
                    generation,
                    creation_sequence,
                    policy,
                    limits,
                },
            ) => {
                if !authority.same(&self.creation.authority) || !owner.same(&self.creation.owner)
                    || creation_sequence != self.creation.creation_sequence || policy
                    != self.creation.policy {
                    return Err(
                        refuse(
                            ErrorCode::IntegrityError,
                            "session binding disagrees with persisted creation",
                        ),
                    );
                }
                match &self.bound {
                    Some(known) => {
                        if !(known.identity.authority.same(&authority) && known.identity.owner.same(
                            &owner,
                        ) && known.identity.generation == generation && known.creation_sequence
                            == creation_sequence && known.policy == policy && known.limits
                            == limits) {
                            return Err(
                                refuse(
                                    ErrorCode::IntegrityError,
                                    "immutable session binding changed",
                                ),
                            );
                        }
                    },
                    None => {
                        self.bound = Some(
                            BoundSession {
                                identity: SessionIdentity { authority, owner, generation },
                                creation_sequence,
                                policy,
                                limits,
                            },
                        );
                        proof {
                            upkeep::law_new_journal_passes_the_audit(self@);
                            durability::law_binding_stays_compact(
                                old(self)@,
                                *response,
                                self@.bound->0,
                            );
                        }
                    },
                }
                Ok(())
            },
            _ => Err(JournalError::Corrupt("not a session binding")),
        }
    }

    pub fn binding(&self) -> (r: Option<Control>)
        ensures
            match r {
                Some(c) => self@.bound matches Some(b) && b.announced_by(c)
                    && super::super::correlation::request_number(c) == Some(Id(1)),
                None => self@.bound is None,
            },
    {
        match &self.bound {
            Some(b) => Some(
                Control::Session(
                    Session::Binding {
                        request: Id(1),
                        authority: b.identity.authority.duplicate(),
                        owner: b.identity.owner.duplicate(),
                        generation: b.identity.generation,
                        creation_sequence: b.creation_sequence,
                        policy: b.policy,
                        limits: b.limits,
                    },
                ),
            ),
            None => None,
        }
    }

    pub fn identity(&self) -> (r: Result<SessionIdentity, JournalError>)
        ensures
            match r {
                Ok(i) => self@.bound matches Some(b) && i.agrees(b.identity),
                Err(e) => self@.bound is None && e.fault() == Fault::Refused(ErrorCode::NotReady),
            },
    {
        Ok(self.known_identity()?.duplicate())
    }

    pub fn known_identity(&self) -> (r: Result<&SessionIdentity, JournalError>)
        ensures
            match r {
                Ok(i) => self@.bound matches Some(b) && *i == b.identity,
                Err(e) => self@.bound is None && e.fault() == Fault::Refused(ErrorCode::NotReady),
            },
    {
        match &self.bound {
            Some(b) => Ok(&b.identity),
            None => Err(refuse(ErrorCode::NotReady, "session binding not durably observed")),
        }
    }

    pub fn find_intent(&self, operation: OperationId) -> (r: Option<usize>)
        ensures
            match r {
                Some(i) => i == self@.operation_at(operation.0@) && i < self@.operations.len(),
                None => self@.operation_at(operation.0@) == self@.operations.len(),
            },
    {
        let ghost p = is_intent(operation.0@);
        let mut i: usize = 0;
        while i < self.operations.len()
            invariant
                i <= self.operations@.len(),
                p == is_intent(operation.0@),
                forall|j: int| 0 <= j < i ==> !p(#[trigger] self.operations@[j]),
            decreases self.operations@.len() - i,
        {
            if self.operations[i].intent.operation.same(&operation) {
                proof {
                    table::lemma_index_unique(self.operations@, p, i as int);
                }
                return Some(i);
            }
            i += 1;
        }
        proof {
            table::lemma_index_unique(self.operations@, p, i as int);
        }
        None
    }

    /// This commit must succeed before any bytes of a new mutation are sent.
    /// Matching preparation is idempotent, including after receipt storage.
    pub fn prepare(&mut self, intent: &Intent) -> (r: Result<(), JournalError>)
        requires
            old(self)@.well_formed(),
        ensures
            final(self)@.well_formed(),
            prepared(old(self)@, *intent, r, final(self)@),
    {
        let ghost t = self@;
        match &self.bound {
            None => {
                return Err(refuse(ErrorCode::NotReady, "session binding not durably observed"));
            },
            Some(b) => {
                intent_image(intent, &b.identity)?;
            },
        }
        match self.find_intent(intent.operation) {
            Some(i) => {
                proof {
                    table::lemma_index_where(t.operations, is_intent(intent.operation.0@));
                }
                if !same_mutation(&self.operations[i].intent.mutation, &intent.mutation) {
                    return Err(refuse(ErrorCode::Conflict, "operation intent changed"));
                }
                return Ok(());
            },
            None => {},
        }
        let count = self.operations.len();
        let last = if count == 0 {
            0
        } else {
            self.operations[count - 1].row
        };
        if count as u64 >= self.limits.operations.0 || last >= MAX_NUMBER {
            return Err(
                refuse(
                    ErrorCode::LimitExceeded,
                    "client journal operation count or cursor ceiling",
                ),
            );
        }
        let entry = OperationEntry { row: last + 1, intent: intent.duplicate(), receipt: None };
        self.operations.push(entry);
        proof {
            assert(self.operations@ =~= t.operations.push(entry));
            assert forall|i: int, j: int| 0 <= i < j < self@.operations.len() implies (
            #[trigger] self@.operations[i]).row < (#[trigger] self@.operations[j]).row by {
                if j == t.operations.len() && i < t.operations.len() - 1 {
                    assert(t.operations[i].row < t.operations[t.operations.len() - 1].row);
                }
            }
            upkeep::law_preparation_keeps_the_audit(t, *intent, entry);
            durability::law_prepared_stays_compact(t, *intent, entry);
        }
        Ok(())
    }

    pub fn intent(&self, operation: OperationId) -> (r: Result<Intent, JournalError>)
        ensures
            match r {
                Ok(i) => self@.intent_fault(operation) is None && i.agrees(
                    self@.operations[self@.operation_at(operation.0@)].intent,
                ),
                Err(e) => self@.intent_fault(operation) == Some(e.fault()),
            },
    {
        let i = self.load_intent(operation)?;
        Ok(self.operations[i].intent.duplicate())
    }

    pub fn load_intent(&self, operation: OperationId) -> (r: Result<usize, JournalError>)
        ensures
            match r {
                Ok(i) => self@.intent_fault(operation) is None && i == self@.operation_at(
                    operation.0@,
                ) && i < self@.operations.len() && self@.operations[i as int].intent.operation.0@
                    == operation.0@,
                Err(e) => self@.intent_fault(operation) == Some(e.fault()),
            },
    {
        match operation.check() {
            Ok(_) => {},
            Err(e) => {
                return Err(JournalError::Protocol(e));
            },
        }
        match self.find_intent(operation) {
            Some(i) => {
                proof {
                    table::lemma_index_where(self@.operations, is_intent(operation.0@));
                }
                Ok(i)
            },
            None => Err(refuse(ErrorCode::NotFound, "no persisted client intent")),
        }
    }

    pub fn receipt(&self, operation: OperationId) -> (r: Result<
        Option<OperationReceipt>,
        JournalError,
    >)
        ensures
            match r {
                Ok(receipt) => self@.intent_fault(operation) is None && receipt.agrees(
                    &self@.operations[self@.operation_at(operation.0@)].receipt,
                ),
                Err(e) => self@.intent_fault(operation) == Some(e.fault()),
            },
    {
        let i = self.load_intent(operation)?;
        Ok(self.operations[i].receipt.duplicate())
    }

    /// Page immutable operation IDs in insertion order. No receipt means no
    /// durable local receipt, not proof that the authority did not commit.
    pub fn unresolved(&self, after: Number, limit: PageLimit) -> (r: Result<
        Vec<(Id, Intent)>,
        JournalError,
    >)
        ensures
            unresolved_listed(self@, after, limit, r),
    {
        match after.check() {
            Ok(_) => {},
            Err(e) => {
                return Err(JournalError::Protocol(e));
            },
        }
        match limit.check() {
            Ok(_) => {},
            Err(e) => {
                return Err(JournalError::Protocol(e));
            },
        }
        let mut page: Vec<(Id, Intent)> = Vec::new();
        let ghost p = is_unresolved(after);
        let mut i: usize = 0;
        while i < self.operations.len()
            invariant
                i <= self.operations@.len(),
                p == is_unresolved(after),
                limit.0 <= 256,
                ({
                    let seen = table::rows_where(self.operations@.take(i as int), p);
                    &&& page@.len() == scopes::least_len(seen.len(), limit.0 as nat)
                    &&& forall|j: int|
                        0 <= j < page@.len() ==> (#[trigger] page@[j]).0 == Id(seen[j].row)
                            && page@[j].1.agrees(seen[j].intent)
                }),
            decreases self.operations@.len() - i,
        {
            let ghost seen = table::rows_where(self.operations@.take(i as int), p);
            let ghost row = self.operations@[i as int];
            proof {
                assert(self.operations@.take(i + 1) =~= self.operations@.take(i as int).push(row));
                table::lemma_rows_where_push(self.operations@.take(i as int), p, row);
                assert(forall|j: int| 0 <= j < seen.len() ==> seen.push(row)[j] == seen[j]);
            }
            if self.operations[i].row > after.0 && self.operations[i].receipt.is_none() && (
            page.len() as u64) < limit.0 {
                page.push(
                    (Id(self.operations[i].row), self.operations[i].intent.duplicate()),
                );
            }
            i += 1;
        }
        assert(self.operations@.take(i as int) =~= self.operations@);
        Ok(page)
    }
}

/// What a binding comes to: it is kept, it was kept before, or it is refused and nothing changes.
pub open spec fn binding_recorded(
    t: Notes,
    response: Control,
    selected: Capabilities,
    r: Result<(), JournalError>,
    after: Notes,
) -> bool {
    let refusal = t.creation.selection_refusal(selected);
    let bound = after.bound->0;
    let fault = if refusal is Some {
        Some(Fault::Refused(refusal->0))
    } else if !response.sendable(storage::IMAGE_LIMIT) {
        Some(Fault::Refused(response.encode_refusal(storage::IMAGE_LIMIT)))
    } else if !storage::is_binding(response) {
        Some(Fault::Refused(ErrorCode::FrameError))
    } else if !binds(t.creation, response) || (t.bound is Some && !t.bound->0.announced_by(response)) {
        Some(Fault::Refused(ErrorCode::IntegrityError))
    } else {
        None
    };
    match r {
        Err(e) => fault == Some(e.fault()) && after == t,
        Ok(_) => fault is None && if t.bound is Some {
            after == t
        } else {
            after == (Notes { bound: Some(bound), ..t }) && bound.announced_by(response)
        },
    }
}

/// What the preparation of an intent comes to: it is kept behind all others, it was kept before, or it is
/// refused and nothing changes.
pub open spec fn prepared(t: Notes, intent: Intent, r: Result<(), JournalError>, after: Notes) -> bool {
    let kept = after.operations.last();
    match r {
        Err(e) => t.prepare_fault(intent) == Some(e.fault()) && after == t,
        Ok(_) => t.prepare_fault(intent) is None && if t.operation_at(intent.operation.0@)
            < t.operations.len() {
            after == t
        } else {
            &&& after == (Notes { operations: t.operations.push(kept), ..t })
            &&& kept.row == t.last_row() + 1
            &&& kept.intent.agrees(intent)
            &&& kept.receipt is None
        },
    }
}

/// The page of intents behind a row that have no receipt.
pub open spec fn unresolved_listed(
    t: Notes,
    after: Number,
    limit: PageLimit,
    r: Result<Vec<(Id, Intent)>, JournalError>,
) -> bool {
    let rows = table::rows_where(t.operations, is_unresolved(after));
    match r {
        Ok(page) => {
            &&& after.valid() && limit.valid()
            &&& page@.len() == scopes::least_len(rows.len(), limit.0 as nat)
            &&& forall|i: int|
                0 <= i < page@.len() ==> (#[trigger] page@[i]).0 == Id(rows[i].row)
                    && page@[i].1.agrees(rows[i].intent)
        },
        Err(e) => !(after.valid() && limit.valid()) && e.fault() == Fault::Refused(
            ErrorCode::FrameError,
        ),
    }
}

/// The binding is that of the creation.
pub open spec fn binds(creation: Creation, response: Control) -> bool {
    response matches Control::Session(
        Session::Binding { authority, owner, creation_sequence, policy, .. },
    ) && authority.0@ == creation.authority.0@ && owner.0@ == creation.owner.0@
        && creation_sequence == creation.creation_sequence && policy == creation.policy
}

} // verus!
